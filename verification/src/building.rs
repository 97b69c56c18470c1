use crate::policy::{Decision, Policy};
use crate::traffic::Traffic;
use crate::events::{arrival_effect, event_at, ran, ran_by, request_effect, requester, Snapshot};
use crate::stats::{Stats, StatsModel};
use std::collections::VecDeque;
use vstd::prelude::*;

verus! {

/// Largest number of elevators a building may have.
pub const MAX_ELEVATORS: usize = 1_000;
/// Largest number of floors a building may have.
pub const MAX_FLOORS: usize = 100_000;
/// Largest travel time between two adjacent floors.
pub const MAX_TIME_PER_FLOOR: u64 = 1_000_000;
/// Largest time an elevator spends stopping at a floor.
pub const MAX_TIME_PER_STOP: u64 = 1_000_000;
/// Largest number of passengers an elevator may hold.
pub const MAX_CAPACITY: usize = 100_000;
/// Maximum number of people on a floor waiting for an elevator.
/// Prevents overwhelming memory when the simulation is sped up massively.
pub const MAX_WAITING: usize = 100_000;
/// Simulation times stay at or below this bound, far from `u64::MAX`, so
/// that sums of a time, a stop and a travel never overflow.
pub const TIME_LIMIT: u64 = 0x4000_0000_0000_0000;

/// A person travelling from floor `src` to floor `dest`.
#[derive(Debug, Copy, Clone, Default)]
pub struct Person {
    /// Floor index that the person requests an elevator at.
    pub src: usize,
    /// Floor index that the person wants to go to.
    pub dest: usize,
    /// Simulation time of the request.
    pub req_time: u64,
}

/// An elevator car.
#[derive(Debug, Clone)]
pub struct Elevator {
    /// Absolute position of the elevator in time units (0 is the ground floor).
    pub pos: u64,
    /// The passengers inside the elevator.
    pub passengers: Vec<Person>,
    /// Maximum number of passengers inside the elevator.
    pub capacity: usize,
    /// Time until which the elevator is occupied with door operations.
    pub busy_until: u64,
}

impl Elevator {
    pub fn new(capacity: usize) -> (e: Self)
        ensures
            e.pos == 0,
            e.passengers@.len() == 0,
            e.capacity == capacity,
            e.busy_until == 0,
    {
        Elevator { pos: 0, passengers: Vec::new(), capacity, busy_until: 0 }
    }

    /// Index of the floor the elevator is at or last passed.
    pub fn floor(&self, time_per_floor: u64) -> (f: usize)
        requires
            time_per_floor > 0,
            self.pos / time_per_floor <= usize::MAX,
        ensures
            f == self.pos / time_per_floor,
    {
        (self.pos / time_per_floor) as usize
    }

    /// Maximum number of passengers inside the elevator.
    pub fn capacity(&self) -> (c: usize)
        ensures
            c == self.capacity,
    {
        self.capacity
    }
}

/// Total number of people in the first `n` queues.
pub open spec fn queued(queues: Seq<VecDeque<Person>>, n: int) -> int
    decreases n,
{
    if n <= 0 {
        0
    } else {
        queued(queues, n - 1) + queues[n - 1]@.len()
    }
}

/// A floor of the building.
#[derive(Debug, Clone)]
pub struct Floor {
    /// `people[n]` are the people waiting for elevator `n`, in the order in
    /// which they will enter it.
    pub people: Vec<VecDeque<Person>>,
}

impl Floor {
    pub open spec fn waiting(&self) -> int {
        queued(self.people@, self.people@.len() as int)
    }

    pub fn new(elevators: usize) -> (f: Self)
        ensures
            f.people@.len() == elevators,
            forall|i: int| 0 <= i < elevators ==> (#[trigger] f.people@[i])@.len() == 0,
    {
        let mut people: Vec<VecDeque<Person>> = Vec::new();
        let mut i: usize = 0;
        while i < elevators
            invariant
                i <= elevators,
                people@.len() == i,
                forall|j: int| 0 <= j < i ==> (#[trigger] people@[j])@.len() == 0,
            decreases elevators - i,
        {
            people.push(VecDeque::new());
            i = i + 1;
        }
        Floor { people }
    }

    /// Number of queues on this floor, one per elevator.
    #[inline]
    pub fn len(&self) -> (n: usize)
        ensures
            n == self.people@.len(),
    {
        self.people.len()
    }
}


/// Default number of floors.
pub const DEFAULT_FLOORS: usize = 20;
/// Default number of elevators.
pub const DEFAULT_ELEVATORS: usize = 4;
/// Default number of passengers an elevator holds.
pub const DEFAULT_ELEVATOR_CAPACITY: usize = 8;
/// Default travel time between two adjacent floors.
pub const DEFAULT_TIME_PER_FLOOR: u64 = 500;
/// Default time spent stopping at a floor.
pub const DEFAULT_TIME_PER_STOP: u64 = 2_000;

/// A building: its floors with their waiting people, and its elevators.
#[derive(Debug, Clone)]
pub struct Building {
    pub floors: Vec<Floor>,
    pub elevators: Vec<Elevator>,
    /// The time it takes to travel between two adjacent floors.
    pub time_per_floor: u64,
    /// Extra time it takes to stop/start and open/close doors.
    pub time_per_stop: u64,
    /// Previous event time.
    pub prev_time: u64,
    /// Previous request time.
    pub prev_req_time: u64,
}

impl Building {
    pub open spec fn nfloors(&self) -> int {
        self.floors@.len() as int
    }

    pub open spec fn nelevators(&self) -> int {
        self.elevators@.len() as int
    }

    /// Highest position an elevator can reach: the top floor.
    pub open spec fn max_pos(&self) -> int {
        if self.nfloors() == 0 {
            0
        } else {
            (self.nfloors() - 1) * self.time_per_floor
        }
    }

    /// A person's trip lies inside the building and was requested already.
    pub open spec fn person_fits(&self, p: Person) -> bool {
        &&& p.src < self.nfloors()
        &&& p.dest < self.nfloors()
        &&& p.src != p.dest
        &&& p.req_time <= self.prev_time
    }

    pub open spec fn elevator_ok(&self, e: Elevator) -> bool {
        &&& e.capacity <= MAX_CAPACITY
        &&& e.passengers@.len() <= e.capacity
        &&& e.pos <= self.max_pos()
        &&& e.busy_until <= TIME_LIMIT + MAX_TIME_PER_STOP
        &&& forall|i: int| 0 <= i < e.passengers@.len() ==> self.person_fits(#[trigger] e.passengers@[i])
    }

    pub open spec fn floor_ok(&self, f: int) -> bool {
        let fl = self.floors@[f];
        &&& fl.people@.len() == self.nelevators()
        &&& fl.waiting() <= MAX_WAITING
        &&& forall|e: int, i: int|
            0 <= e < self.nelevators() && 0 <= i < fl.people@[e]@.len() ==> {
                let p = #[trigger] fl.people@[e]@[i];
                p.src == f && self.person_fits(p)
            }
    }

    /// Well-formedness: the limits that `build` checks, and the shape and
    /// contents that every operation keeps.
    pub open spec fn wf(&self) -> bool {
        &&& self.nfloors() <= MAX_FLOORS
        &&& self.nelevators() <= MAX_ELEVATORS
        &&& self.time_per_floor <= MAX_TIME_PER_FLOOR
        &&& self.time_per_stop <= MAX_TIME_PER_STOP
        &&& self.prev_req_time <= self.prev_time <= TIME_LIMIT
        &&& forall|f: int| 0 <= f < self.nfloors() ==> #[trigger] self.floor_ok(f)
        &&& forall|e: int| 0 <= e < self.nelevators() ==> #[trigger] self.elevator_ok(self.elevators@[e])
    }

    /// Ready to be simulated: well formed, with elevators and a positive
    /// travel time between floors.
    pub open spec fn runnable(&self) -> bool {
        &&& self.wf()
        &&& self.time_per_floor > 0
        &&& self.nelevators() > 0
    }

    pub open spec fn spec_travel_time(&self, elevator: int, dest_floor: int) -> int {
        let pos = self.elevators@[elevator].pos as int;
        let target = dest_floor * self.time_per_floor;
        if pos >= target { pos - target } else { target - pos }
    }

    /// When the elevator may start moving again.
    pub open spec fn start_time(&self, elevator: int) -> int {
        let busy = self.elevators@[elevator].busy_until;
        if self.prev_time >= busy { self.prev_time as int } else { busy as int }
    }

    pub open spec fn spec_arrival_time(&self, elevator: int, dest_floor: int) -> int {
        self.start_time(elevator) + self.spec_travel_time(elevator, dest_floor)
    }

    /// The time an elevator heading for `dest` would arrive there; `u64::MAX`
    /// when it has no destination.
    pub open spec fn arrival_or_never(&self, elevator: int, dest: Option<usize>) -> int {
        match dest {
            Some(d) => self.spec_arrival_time(elevator, d as int),
            None => u64::MAX as int,
        }
    }
}


/// A floor's position lies between the ground floor and the top floor.
pub proof fn lemma_floor_position(d: int, floors: int, tpf: int)
    by (nonlinear_arith)
    requires
        0 <= d < floors,
        floors <= MAX_FLOORS,
        0 <= tpf <= MAX_TIME_PER_FLOOR,
    ensures
        0 <= d * tpf <= (floors - 1) * tpf,
        (floors - 1) * tpf <= 100_000_000_000,
{
}

/// Positions divided by the travel time per floor give floor indices.
pub proof fn lemma_floor_of_position(d: int, tpf: int)
    by (nonlinear_arith)
    requires
        0 <= d,
        0 < tpf,
    ensures
        (d * tpf) / tpf == d,
        (d * tpf) % tpf == 0,
{
}

/// A position at a floor is that floor times the travel time per floor.
pub proof fn lemma_at_floor(pos: int, tpf: int)
    by (nonlinear_arith)
    requires
        0 <= pos,
        0 < tpf,
        pos % tpf == 0,
    ensures
        (pos / tpf) * tpf == pos,
{
}

/// Below the top floor's position lies a floor below the top floor.
pub proof fn lemma_position_floor(pos: int, floors: int, tpf: int)
    by (nonlinear_arith)
    requires
        1 <= floors,
        0 < tpf,
        0 <= pos <= (floors - 1) * tpf,
    ensures
        pos / tpf <= floors - 1,
{
}

/// Builds a `Building`; unset values take their defaults.
#[derive(Debug, Clone)]
pub struct BuildingBuilder {
    pub time_per_floor: Option<u64>,
    pub time_per_stop: Option<u64>,
    pub elevators: Option<usize>,
    pub floors: Option<usize>,
    pub elevator_capacity: Option<usize>,
}

impl Default for BuildingBuilder {
    fn default() -> (b: Self)
        ensures
            b.time_per_floor is None,
            b.time_per_stop is None,
            b.elevators is None,
            b.floors is None,
            b.elevator_capacity is None,
    {
        BuildingBuilder {
            time_per_floor: None,
            time_per_stop: None,
            elevators: None,
            floors: None,
            elevator_capacity: None,
        }
    }
}

impl BuildingBuilder {
    pub fn time_per_floor(self, time_per_floor: u64) -> (b: Self)
        ensures
            b == (BuildingBuilder { time_per_floor: Some(time_per_floor), ..self }),
    {
        BuildingBuilder { time_per_floor: Some(time_per_floor), ..self }
    }

    pub fn time_per_stop(self, time_per_stop: u64) -> (b: Self)
        ensures
            b == (BuildingBuilder { time_per_stop: Some(time_per_stop), ..self }),
    {
        BuildingBuilder { time_per_stop: Some(time_per_stop), ..self }
    }

    pub fn elevators(self, elevators: usize) -> (b: Self)
        ensures
            b == (BuildingBuilder { elevators: Some(elevators), ..self }),
    {
        BuildingBuilder { elevators: Some(elevators), ..self }
    }

    pub fn floors(self, floors: usize) -> (b: Self)
        ensures
            b == (BuildingBuilder { floors: Some(floors), ..self }),
    {
        BuildingBuilder { floors: Some(floors), ..self }
    }

    pub fn elevator_capacity(self, elevator_capacity: usize) -> (b: Self)
        ensures
            b == (BuildingBuilder { elevator_capacity: Some(elevator_capacity), ..self }),
    {
        BuildingBuilder { elevator_capacity: Some(elevator_capacity), ..self }
    }

    /// Number of elevators that `build` creates; the default when unset.
    pub open spec fn spec_elevators(&self) -> usize {
        match self.elevators {
            Some(v) => v,
            None => DEFAULT_ELEVATORS,
        }
    }

    /// Number of floors that `build` creates; the default when unset.
    pub open spec fn spec_floors(&self) -> usize {
        match self.floors {
            Some(v) => v,
            None => DEFAULT_FLOORS,
        }
    }

    pub open spec fn spec_time_per_floor(&self) -> u64 {
        match self.time_per_floor {
            Some(v) => v,
            None => DEFAULT_TIME_PER_FLOOR,
        }
    }

    pub open spec fn spec_time_per_stop(&self) -> u64 {
        match self.time_per_stop {
            Some(v) => v,
            None => DEFAULT_TIME_PER_STOP,
        }
    }

    pub open spec fn spec_capacity(&self) -> usize {
        match self.elevator_capacity {
            Some(v) => v,
            None => DEFAULT_ELEVATOR_CAPACITY,
        }
    }

    /// The values lie within the limits that `build` accepts.
    pub open spec fn within_limits(&self) -> bool {
        &&& self.spec_elevators() <= MAX_ELEVATORS
        &&& self.spec_floors() <= MAX_FLOORS
        &&& self.spec_time_per_floor() <= MAX_TIME_PER_FLOOR
        &&& self.spec_time_per_stop() <= MAX_TIME_PER_STOP
        &&& self.spec_capacity() <= MAX_CAPACITY
    }

    pub fn build(&self) -> (b: Building)
        requires
            self.within_limits(),
        ensures
            b.wf(),
            b.nfloors() == self.spec_floors(),
            b.nelevators() == self.spec_elevators(),
            b.time_per_floor == self.spec_time_per_floor(),
            b.time_per_stop == self.spec_time_per_stop(),
            b.prev_time == 0,
            b.prev_req_time == 0,
            forall|e: int|
                0 <= e < b.nelevators() ==> {
                    let el = #[trigger] b.elevators@[e];
                    &&& el.pos == 0
                    &&& el.passengers@.len() == 0
                    &&& el.capacity == self.spec_capacity()
                    &&& el.busy_until == 0
                },
            forall|f: int, e: int|
                0 <= f < b.nfloors() && 0 <= e < b.nelevators() ==> (#[trigger] b.floors@[f].people@[e])@.len() == 0,
    {
        let elevators = match self.elevators {
            Some(v) => v,
            None => DEFAULT_ELEVATORS,
        };
        let floors = match self.floors {
            Some(v) => v,
            None => DEFAULT_FLOORS,
        };
        let time_per_floor = match self.time_per_floor {
            Some(v) => v,
            None => DEFAULT_TIME_PER_FLOOR,
        };
        let time_per_stop = match self.time_per_stop {
            Some(v) => v,
            None => DEFAULT_TIME_PER_STOP,
        };
        let capacity = match self.elevator_capacity {
            Some(v) => v,
            None => DEFAULT_ELEVATOR_CAPACITY,
        };
        let mut fl: Vec<Floor> = Vec::new();
        let mut i: usize = 0;
        while i < floors
            invariant
                i <= floors,
                fl@.len() == i,
                forall|f: int| 0 <= f < i ==> (#[trigger] fl@[f]).people@.len() == elevators,
                forall|f: int, e: int|
                    0 <= f < i && 0 <= e < elevators ==> (#[trigger] fl@[f].people@[e])@.len() == 0,
            decreases floors - i,
        {
            fl.push(Floor::new(elevators));
            i = i + 1;
        }
        let mut el: Vec<Elevator> = Vec::new();
        let mut j: usize = 0;
        while j < elevators
            invariant
                j <= elevators,
                el@.len() == j,
                forall|e: int|
                    0 <= e < j ==> {
                        let x = #[trigger] el@[e];
                        &&& x.pos == 0
                        &&& x.passengers@.len() == 0
                        &&& x.capacity == capacity
                        &&& x.busy_until == 0
                    },
            decreases elevators - j,
        {
            el.push(Elevator::new(capacity));
            j = j + 1;
        }
        let b = Building {
            floors: fl,
            elevators: el,
            time_per_floor,
            time_per_stop,
            prev_time: 0,
            prev_req_time: 0,
        };
        assert forall|f: int| 0 <= f < b.nfloors() implies #[trigger] b.floor_ok(f) by {
            let people = b.floors@[f].people@;
            assert forall|k: int| 0 <= k <= people.len() implies queued(people, k) == 0 by {
                lemma_queued_empty(people, k);
            }
        }
        b
    }
}

proof fn lemma_queued_empty(queues: Seq<VecDeque<Person>>, n: int)
    requires
        0 <= n <= queues.len(),
        forall|i: int| 0 <= i < queues.len() ==> (#[trigger] queues[i])@.len() == 0,
    ensures
        queued(queues, n) == 0,
    decreases n,
{
    if n > 0 {
        lemma_queued_empty(queues, n - 1);
    }
}

/// Partial sums of queue lengths grow with the number of queues summed.
pub proof fn lemma_queued_monotone(queues: Seq<VecDeque<Person>>, i: int, n: int)
    requires
        0 <= i <= n,
    ensures
        0 <= queued(queues, i) <= queued(queues, n),
    decreases n,
{
    if n > i {
        lemma_queued_monotone(queues, i, n - 1);
    } else if i > 0 {
        lemma_queued_monotone(queues, i - 1, i - 1);
    }
}


impl Default for Building {
    fn default() -> (b: Self)
        ensures
            b.wf(),
            b.nfloors() == DEFAULT_FLOORS,
            b.nelevators() == DEFAULT_ELEVATORS,
            b.time_per_floor == DEFAULT_TIME_PER_FLOOR,
            b.time_per_stop == DEFAULT_TIME_PER_STOP,
            b.prev_time == 0,
    {
        Building::builder().build()
    }
}

impl Building {
    pub fn builder() -> (b: BuildingBuilder)
        ensures
            b.time_per_floor is None,
            b.time_per_stop is None,
            b.elevators is None,
            b.floors is None,
            b.elevator_capacity is None,
    {
        BuildingBuilder::default()
    }

    pub fn time_per_floor(&self) -> (t: u64)
        ensures
            t == self.time_per_floor,
    {
        self.time_per_floor
    }

    pub fn num_floors(&self) -> (n: usize)
        ensures
            n == self.nfloors(),
    {
        self.floors.len()
    }

    /// Number of people waiting at a floor, for any elevator.
    pub fn waiting_at(&self, floor: usize) -> (n: usize)
        requires
            self.wf(),
            floor < self.nfloors(),
        ensures
            n == self.floors@[floor as int].waiting(),
    {
        let fl = &self.floors[floor];
        proof {
            assert(self.floor_ok(floor as int));
        }
        let mut sum: usize = 0;
        let mut i: usize = 0;
        while i < fl.people.len()
            invariant
                i <= fl.people@.len(),
                sum == queued(fl.people@, i as int),
                fl.waiting() <= MAX_WAITING,
            decreases fl.people@.len() - i,
        {
            proof {
                lemma_queued_monotone(fl.people@, i + 1, fl.people@.len() as int);
            }
            sum = sum + fl.people[i].len();
            i = i + 1;
        }
        sum
    }

    /// Number of people waiting at a floor for one elevator.
    pub fn waiting_for_elevator(&self, floor: usize, elevator: usize) -> (n: usize)
        requires
            floor < self.nfloors(),
            elevator < self.floors@[floor as int].people@.len(),
        ensures
            n == self.floors@[floor as int].people@[elevator as int]@.len(),
    {
        self.floors[floor].people[elevator].len()
    }

    pub fn prev_time(&self) -> (t: u64)
        ensures
            t == self.prev_time,
    {
        self.prev_time
    }

    /// Time an elevator needs to travel to a floor, once it is moving.
    pub fn travel_time(&self, elevator: usize, dest_floor: usize) -> (t: u64)
        requires
            elevator < self.nelevators(),
            dest_floor * self.time_per_floor <= u64::MAX,
        ensures
            t == self.spec_travel_time(elevator as int, dest_floor as int),
    {
        let e = &self.elevators[elevator];
        let target_pos = dest_floor as u64 * self.time_per_floor;
        if e.pos >= target_pos {
            e.pos - target_pos
        } else {
            target_pos - e.pos
        }
    }

    /// Time at which an elevator would arrive at a floor if it left as soon
    /// as it is free.
    pub fn arrival_time(&self, elevator: usize, dest_floor: usize) -> (t: u64)
        requires
            elevator < self.nelevators(),
            dest_floor * self.time_per_floor <= u64::MAX,
            self.spec_arrival_time(elevator as int, dest_floor as int) <= u64::MAX,
        ensures
            t == self.spec_arrival_time(elevator as int, dest_floor as int),
    {
        let travel_time = self.travel_time(elevator, dest_floor);
        let busy = self.elevators[elevator].busy_until;
        let start_time = if self.prev_time >= busy {
            self.prev_time
        } else {
            busy
        };
        start_time + travel_time
    }
}


/// Where an elevator at `pos` heading for `target` is at time `until`, if it
/// may start moving at `start`: it moves one time unit per unit of time and
/// stops at the target.
pub open spec fn moved_pos(pos: int, target: int, start: int, until: int) -> int {
    if until >= start {
        let delta = until - start;
        if pos < target {
            if pos + delta < target { pos + delta } else { target }
        } else if pos > target {
            if pos - delta > target { pos - delta } else { target }
        } else {
            pos
        }
    } else {
        pos
    }
}

impl Building {
    /// Position of an elevator at time `until`, given its destination.
    pub open spec fn pos_at(&self, elevator: int, dest: Option<usize>, until: int) -> int {
        let e = self.elevators@[elevator];
        match dest {
            Some(d) => moved_pos(e.pos as int, d * self.time_per_floor, self.start_time(elevator), until),
            None => e.pos as int,
        }
    }

    /// `after` is this building with every elevator that has a destination
    /// in `dests` moved toward it up to time `t`; nothing else changes but
    /// the time of the last event, which this leaves open.
    pub open spec fn moved_to(&self, after: &Building, dests: Seq<Option<usize>>, t: int) -> bool {
        &&& after.floors == self.floors
        &&& after.time_per_floor == self.time_per_floor
        &&& after.time_per_stop == self.time_per_stop
        &&& after.prev_req_time == self.prev_req_time
        &&& after.nelevators() == self.nelevators()
        &&& forall|i: int|
            0 <= i < self.nelevators() ==> {
                let e = #[trigger] after.elevators@[i];
                let o = self.elevators@[i];
                &&& e.pos == self.pos_at(i, dests[i], t)
                &&& e.passengers == o.passengers
                &&& e.capacity == o.capacity
                &&& e.busy_until == o.busy_until
            }
    }

    /// This building is `a` with its last event at time `t`.
    pub open spec fn same_but_time(&self, a: &Building, t: int) -> bool {
        &&& self.floors == a.floors
        &&& self.elevators == a.elevators
        &&& self.time_per_floor == a.time_per_floor
        &&& self.time_per_stop == a.time_per_stop
        &&& self.prev_req_time == a.prev_req_time
        &&& self.prev_time == t
    }

    /// `after` is this building once elevator `e`, standing at floor `f`,
    /// has opened its doors at `time`: the passengers headed for `f` leave,
    /// in order, and are recorded from statistics `s0` to `s1`; then the
    /// people waiting at `f` for this elevator enter in the order they came,
    /// as many as there is room for; the elevator is busy for one stop.
    pub open spec fn doors_opened(&self, after: &Building, e: int, f: int, time: int, s0: StatsModel, s1: StatsModel) -> bool {
        let o = self.elevators@[e];
        let q = self.floors@[f].people@[e]@;
        let kept = staying(o.passengers@, f);
        let room = o.capacity - kept.len();
        let k = if room < q.len() { room } else { q.len() as int };
        let n = after.elevators@[e];
        &&& n.passengers@ == kept + q.take(k)
        &&& n.pos == o.pos
        &&& n.capacity == o.capacity
        &&& n.busy_until == time + self.time_per_stop
        &&& after.floors@[f].people@[e]@ == q.skip(k)
        &&& after.floors@[f].people@.len() == self.floors@[f].people@.len()
        &&& forall|g: int, j: int|
            0 <= g < self.nfloors() && 0 <= j < self.nelevators() && (g != f || j != e)
                ==> #[trigger] after.floors@[g].people@[j] == self.floors@[g].people@[j]
        &&& s1 == s0.record(time, leaving(o.passengers@, f))
        &&& after.nfloors() == self.nfloors()
        &&& after.nelevators() == self.nelevators()
        &&& after.time_per_floor == self.time_per_floor
        &&& after.time_per_stop == self.time_per_stop
        &&& after.prev_time == self.prev_time
        &&& after.prev_req_time == self.prev_req_time
        &&& forall|j: int|
            0 <= j < self.nelevators() && j != e ==> #[trigger] after.elevators@[j] == self.elevators@[j]
    }

    /// `after` is this building with `person` added at the back of the queue
    /// for elevator `e` at the person's floor; nothing else changes but the
    /// times of the last event and request, which this leaves open.
    pub open spec fn person_queued(&self, after: &Building, person: Person, e: int) -> bool {
        let src = person.src as int;
        &&& after.elevators == self.elevators
        &&& after.time_per_floor == self.time_per_floor
        &&& after.time_per_stop == self.time_per_stop
        &&& after.nfloors() == self.nfloors()
        &&& forall|g: int| 0 <= g < self.nfloors() && g != src ==> #[trigger] after.floors@[g] == self.floors@[g]
        &&& after.floors@[src].people@.len() == self.floors@[src].people@.len()
        &&& forall|j: int|
            0 <= j < self.floors@[src].people@.len() && j != e ==> #[trigger] after.floors@[src].people@[j]
                == self.floors@[src].people@[j]
        &&& after.floors@[src].people@[e]@ == self.floors@[src].people@[e]@.push(person)
    }

    /// All destinations are floors of the building.
    pub open spec fn dests_ok(&self, dests: Seq<Option<usize>>) -> bool {
        &&& dests.len() == self.nelevators()
        &&& forall|i: int| 0 <= i < dests.len() && (#[trigger] dests[i]) is Some ==> dests[i]->0 < self.nfloors()
    }

    /// Under well-formedness, arrival times stay far from overflow.
    pub proof fn lemma_arrival_fits(&self, elevator: int, dest: int)
        requires
            self.wf(),
            0 <= elevator < self.nelevators(),
            0 <= dest < self.nfloors(),
        ensures
            dest * self.time_per_floor <= 100_000_000_000,
            self.spec_travel_time(elevator, dest) <= self.max_pos(),
            self.max_pos() <= 100_000_000_000,
            self.spec_arrival_time(elevator, dest) <= TIME_LIMIT + MAX_TIME_PER_STOP + 100_000_000_000,
    {
        lemma_floor_position(dest, self.nfloors(), self.time_per_floor as int);
        assert(self.elevator_ok(self.elevators@[elevator]));
    }

    /// Moves every elevator that has a destination toward it, up to time
    /// `until`.
    fn move_elevators(&mut self, until: u64, dests: &Vec<Option<usize>>)
        requires
            old(self).wf(),
            old(self).dests_ok(dests@),
            until <= TIME_LIMIT,
        ensures
            final(self).wf(),
            final(self).floors == old(self).floors,
            final(self).time_per_floor == old(self).time_per_floor,
            final(self).time_per_stop == old(self).time_per_stop,
            final(self).prev_time == old(self).prev_time,
            final(self).prev_req_time == old(self).prev_req_time,
            final(self).nelevators() == old(self).nelevators(),
            old(self).moved_to(final(self), dests@, until as int),
            forall|i: int|
                0 <= i < old(self).nelevators() ==> {
                    let e = #[trigger] final(self).elevators@[i];
                    let o = old(self).elevators@[i];
                    &&& e.pos == old(self).pos_at(i, dests@[i], until as int)
                    &&& e.passengers == o.passengers
                    &&& e.capacity == o.capacity
                    &&& e.busy_until == o.busy_until
                },
    {
        let ghost old_self = *self;
        let n = self.elevators.len();
        let mut i: usize = 0;
        while i < n
            invariant
                n == self.nelevators(),
                i <= n,
                old_self.wf(),
                old_self.dests_ok(dests@),
                until <= TIME_LIMIT,
                self.floors == old_self.floors,
                self.time_per_floor == old_self.time_per_floor,
                self.time_per_stop == old_self.time_per_stop,
                self.prev_time == old_self.prev_time,
                self.prev_req_time == old_self.prev_req_time,
                self.nelevators() == old_self.nelevators(),
                forall|j: int|
                    0 <= j < n ==> {
                        let e = #[trigger] self.elevators@[j];
                        let o = old_self.elevators@[j];
                        &&& e.pos == (if j < i { old_self.pos_at(j, dests@[j], until as int) } else { o.pos as int })
                        &&& e.passengers == o.passengers
                        &&& e.capacity == o.capacity
                        &&& e.busy_until == o.busy_until
                    },
            decreases n - i,
        {
            if let Some(dest) = dests[i] {
                proof {
                    assert(dests@[i as int] is Some);
                    old_self.lemma_arrival_fits(i as int, dest as int);
                    assert(old_self.elevator_ok(old_self.elevators@[i as int]));
                }
                let busy = self.elevators[i].busy_until;
                let start_time = if self.prev_time >= busy { self.prev_time } else { busy };
                if until >= start_time {
                    let delta = until - start_time;
                    let target_pos = dest as u64 * self.time_per_floor;
                    let pos = self.elevators[i].pos;
                    if pos < target_pos {
                        let p = pos + delta;
                        self.elevators[i].pos = if p < target_pos { p } else { target_pos };
                    } else if pos > target_pos {
                        let p = pos.saturating_sub(delta);
                        self.elevators[i].pos = if p > target_pos { p } else { target_pos };
                    }
                }
            }
            i = i + 1;
        }
        proof {
            assert forall|e: int| 0 <= e < self.nelevators() implies #[trigger] self.elevator_ok(self.elevators@[e]) by {
                assert(old_self.elevator_ok(old_self.elevators@[e]));
                if dests@[e] is Some {
                    lemma_floor_position(dests@[e]->0 as int, self.nfloors(), self.time_per_floor as int);
                }
            }
            assert forall|f: int| 0 <= f < self.nfloors() implies #[trigger] self.floor_ok(f) by {
                assert(old_self.floor_ok(f));
            }
        }
    }

    /// The elevator that arrives at its destination first, and when;
    /// `u64::MAX` when no elevator has a destination. Ties go to the lowest
    /// index.
    fn next_arrival(&self, dests: &Vec<Option<usize>>) -> (r: (usize, u64))
        requires
            self.wf(),
            self.dests_ok(dests@),
            dests@.len() > 0,
        ensures
            r.0 < dests@.len(),
            r.1 == self.arrival_or_never(r.0 as int, dests@[r.0 as int]),
            forall|j: int| 0 <= j < dests@.len() ==> r.1 <= #[trigger] self.arrival_or_never(j, dests@[j]),
            forall|j: int| 0 <= j < r.0 ==> r.1 < #[trigger] self.arrival_or_never(j, dests@[j]),
    {
        let n = dests.len();
        let mut best: usize = 0;
        let mut best_time: u64 = u64::MAX;
        let mut i: usize = 0;
        while i < n
            invariant
                n == dests@.len(),
                n > 0,
                i <= n,
                self.wf(),
                self.dests_ok(dests@),
                best < n,
                i > 0 ==> best < i,
                i == 0 ==> best == 0 && best_time == u64::MAX,
                i > 0 ==> best_time == self.arrival_or_never(best as int, dests@[best as int]),
                forall|j: int| 0 <= j < i ==> best_time <= #[trigger] self.arrival_or_never(j, dests@[j]),
                forall|j: int| 0 <= j < best ==> best_time < #[trigger] self.arrival_or_never(j, dests@[j]),
            decreases n - i,
        {
            let t = match dests[i] {
                Some(d) => {
                    proof {
                        assert(dests@[i as int] is Some);
                        self.lemma_arrival_fits(i as int, d as int);
                    }
                    self.arrival_time(i, d)
                },
                None => u64::MAX,
            };
            if i == 0 || t < best_time {
                best = i;
                best_time = t;
            }
            i = i + 1;
        }
        (best, best_time)
    }
}


/// The passengers that stay in an elevator stopping at floor `f`.
pub open spec fn staying(ps: Seq<Person>, f: int) -> Seq<Person> {
    ps.filter(|p: Person| p.dest != f)
}

/// The passengers that leave an elevator stopping at floor `f`.
pub open spec fn leaving(ps: Seq<Person>, f: int) -> Seq<Person> {
    ps.filter(|p: Person| p.dest == f)
}

/// Shortening one queue does not grow the number of people queued.
pub(crate) proof fn lemma_queued_update(queues: Seq<VecDeque<Person>>, i: int, q: VecDeque<Person>, n: int)
    requires
        0 <= i < queues.len(),
        0 <= n <= queues.len(),
        q@.len() <= queues[i]@.len(),
    ensures
        queued(queues.update(i, q), n) <= queued(queues, n),
        queued(queues.update(i, q), n) == queued(queues, n) - (if i < n { queues[i]@.len() - q@.len() } else { 0 }),
    decreases n,
{
    if n > 0 {
        lemma_queued_update(queues, i, q, n - 1);
    }
}

/// Growing one queue by one person grows the number of people queued by one.
pub(crate) proof fn lemma_queued_push(queues: Seq<VecDeque<Person>>, i: int, q: VecDeque<Person>, n: int)
    requires
        0 <= i < queues.len(),
        0 <= n <= queues.len(),
        q@.len() == queues[i]@.len() + 1,
    ensures
        queued(queues.update(i, q), n) == queued(queues, n) + (if i < n { 1int } else { 0int }),
    decreases n,
{
    if n > 0 {
        lemma_queued_push(queues, i, q, n - 1);
    }
}

impl Building {
    /// An elevator has arrived at its destination and opens its doors.
    /// Passengers whose floor this is leave first, in order, and are recorded
    /// in the statistics; then the people waiting at the floor for this
    /// elevator enter in the order they came, as many as there is room for.
    fn arrive(&mut self, elevator: usize, time: u64, decision: &mut Decision, stats: &mut Stats)
        requires
            old(self).runnable(),
            elevator < old(self).nelevators(),
            old(decision).fits(old(self)),
            old(decision).dests@[elevator as int] is Some,
            old(self).elevators@[elevator as int].pos == old(decision).dests@[elevator as int]->0
                * old(self).time_per_floor,
            old(self).prev_time <= time <= TIME_LIMIT,
            old(stats).wf(),
            time + old(stats).window <= u64::MAX,
            leaving(
                old(self).elevators@[elevator as int].passengers@,
                old(decision).dests@[elevator as int]->0 as int,
            ).len() > 0 ==> old(stats).start < time,
        ensures
            ({
                let f = old(decision).dests@[elevator as int]->0 as int;
                let o = old(self).elevators@[elevator as int];
                let q = old(self).floors@[f].people@[elevator as int]@;
                let kept = staying(o.passengers@, f);
                let room = o.capacity - kept.len();
                let k = if room < q.len() { room } else { q.len() as int };
                let e = final(self).elevators@[elevator as int];
                &&& e.passengers@ == kept + q.take(k)
                &&& e.pos == o.pos
                &&& e.capacity == o.capacity
                &&& e.busy_until == time + old(self).time_per_stop
                &&& final(self).floors@[f].people@[elevator as int]@ == q.skip(k)
                &&& final(self).floors@[f].people@.len() == old(self).floors@[f].people@.len()
                &&& forall|g: int, j: int|
                    0 <= g < old(self).nfloors() && 0 <= j < old(self).nelevators() && (g != f || j != elevator)
                        ==> #[trigger] final(self).floors@[g].people@[j] == old(self).floors@[g].people@[j]
                &&& final(stats)@ == old(stats)@.record(time as int, leaving(o.passengers@, f))
            }),
            final(self).wf(),
            old(self).doors_opened(
                final(self),
                elevator as int,
                old(decision).dests@[elevator as int]->0 as int,
                time as int,
                old(stats)@,
                final(stats)@,
            ),
            final(self).nfloors() == old(self).nfloors(),
            final(self).nelevators() == old(self).nelevators(),
            final(self).time_per_floor == old(self).time_per_floor,
            final(self).time_per_stop == old(self).time_per_stop,
            final(self).prev_time == old(self).prev_time,
            final(self).prev_req_time == old(self).prev_req_time,
            forall|j: int|
                0 <= j < old(self).nelevators() && j != elevator ==> #[trigger] final(self).elevators@[j]
                    == old(self).elevators@[j],
            final(decision).dests@ == old(decision).dests@.update(elevator as int, None),
            final(decision).waits@ == old(decision).waits@,
            final(stats).wf(),
            final(stats).window == old(stats).window,
            final(stats).max_time_len == old(stats).max_time_len,
            final(stats).start <= (if leaving(
                old(self).elevators@[elevator as int].passengers@,
                old(decision).dests@[elevator as int]->0 as int,
            ).len() > 0 { time as int - 1 } else { old(stats).start as int }),
    {
        let ghost old_self = *self;
        let ghost fl = old(decision).dests@[elevator as int]->0 as int;
        proof {
            assert(old_self.elevator_ok(old_self.elevators@[elevator as int]));
            assert(decision.dests@[elevator as int] is Some);
            lemma_floor_of_position(fl, self.time_per_floor as int);
            lemma_floor_position(fl, self.nfloors(), self.time_per_floor as int);
        }
        let floor_idx = self.elevators[elevator].floor(self.time_per_floor);
        assert(floor_idx == fl);
        self.elevators[elevator].busy_until = time + self.time_per_stop;
        decision.dests.set(elevator, None);

        // Passengers whose floor this is leave.
        let ghost ps = old_self.elevators@[elevator as int].passengers@;
        let ghost s1 = *self;
        let n = self.elevators[elevator].passengers.len();
        let mut kept: Vec<Person> = Vec::new();
        let mut i: usize = 0;
        while i < n
            invariant
                i <= n,
                n == ps.len(),
                floor_idx == fl,
                *self == s1,
                s1.elevators@[elevator as int].passengers@ == ps,
                elevator < s1.nelevators(),
                kept@ == staying(ps.take(i as int), fl),
                stats@ == old(stats)@.record(time as int, leaving(ps.take(i as int), fl)),
                stats.wf(),
                stats.window == old(stats).window,
                stats.max_time_len == old(stats).max_time_len,
                time + stats.window <= u64::MAX,
                leaving(ps, fl).len() > 0 ==> stats.start < time,
                leaving(ps.take(i as int), fl).len() == 0 ==> stats.start == old(stats).start,
                leaving(ps.take(i as int), fl).len() > 0 ==> stats.start < time,
                forall|j: int| 0 <= j < ps.len() ==> (#[trigger] ps[j]).req_time <= time,
            decreases n - i,
        {
            let p = self.elevators[elevator].passengers[i];
            proof {
                assert(ps.take(i + 1) =~= ps.take(i as int).push(p));
                ps.take(i as int).lemma_filter_push(p, |p: Person| p.dest != fl);
                ps.take(i as int).lemma_filter_push(p, |p: Person| p.dest == fl);
            }
            if p.dest == floor_idx {
                proof {
                    ps.lemma_filter_contains(|p: Person| p.dest == fl, i as int);
                }
                stats.add(time, &p);
                proof {
                    assert(leaving(ps.take(i + 1), fl).drop_last() == leaving(ps.take(i as int), fl));
                }
            } else {
                kept.push(p);
            }
            i = i + 1;
        }
        proof {
            assert(ps.take(n as int) =~= ps);
            assert forall|j: int| 0 <= j < ps.len() implies old_self.person_fits(#[trigger] ps[j]) by {
                assert(old_self.elevator_ok(old_self.elevators@[elevator as int]));
            }
        }
        let kept_len = kept.len();
        self.elevators[elevator].passengers = kept;

        // People waiting at the floor enter, in order.
        let cap = self.elevators[elevator].capacity;
        proof {
            ps.lemma_filter_len(|p: Person| p.dest != fl);
        }
        let space = cap - kept_len;
        let ghost q = old_self.floors@[fl].people@[elevator as int]@;
        proof {
            assert(old_self.floor_ok(fl));
        }
        let ghost s2 = *self;
        let qlen = self.floors[floor_idx].people[elevator].len();
        let entering = if space < qlen { space } else { qlen };
        let mut j: usize = 0;
        while j < entering
            invariant
                j <= entering <= qlen,
                qlen == q.len(),
                elevator < s2.nelevators(),
                floor_idx < s2.nfloors(),
                floor_idx == fl,
                s2.floors == old_self.floors,
                elevator < s2.floors@[fl].people@.len(),
                self.nfloors() == s2.nfloors(),
                self.nelevators() == s2.nelevators(),
                self.time_per_floor == s2.time_per_floor,
                self.time_per_stop == s2.time_per_stop,
                self.prev_time == s2.prev_time,
                self.prev_req_time == s2.prev_req_time,
                self.floors@[fl].people@.len() == s2.floors@[fl].people@.len(),
                forall|g: int| 0 <= g < s2.nfloors() && g != fl ==> #[trigger] self.floors@[g] == s2.floors@[g],
                forall|h: int|
                    0 <= h < s2.floors@[fl].people@.len() && h != elevator ==> #[trigger] self.floors@[fl].people@[h]
                        == s2.floors@[fl].people@[h],
                forall|h: int| 0 <= h < s2.nelevators() && h != elevator ==> #[trigger] self.elevators@[h] == s2.elevators@[h],
                self.elevators@[elevator as int].pos == s2.elevators@[elevator as int].pos,
                self.elevators@[elevator as int].capacity == s2.elevators@[elevator as int].capacity,
                self.elevators@[elevator as int].busy_until == s2.elevators@[elevator as int].busy_until,
                self.elevators@[elevator as int].passengers@ == staying(ps, fl) + q.take(j as int),
                self.floors@[fl].people@[elevator as int]@ == q.skip(j as int),
            decreases entering - j,
        {
            let p = self.floors[floor_idx].people[elevator].pop_front().unwrap();
            self.elevators[elevator].passengers.push(p);
            proof {
                assert(q.skip(j + 1) =~= q.skip(j as int).subrange(1, q.skip(j as int).len() as int));
                assert(staying(ps, fl) + q.take(j + 1) =~= (staying(ps, fl) + q.take(j as int)).push(p));
            }
            j = j + 1;
        }
        proof {
            let kept_s = staying(ps, fl);
            let pass = self.elevators@[elevator as int].passengers@;
            assert forall|x: int| 0 <= x < pass.len() implies self.person_fits(#[trigger] pass[x]) by {
                if x < kept_s.len() {
                    ps.lemma_filter_pred(|p: Person| p.dest != fl, x);
                    assert(kept_s.contains(pass[x]));
                    ps.lemma_filter_contains_rev(|p: Person| p.dest != fl, pass[x]);
                    let y = choose|y: int| 0 <= y < ps.len() && ps[y] == pass[x];
                    assert(old_self.person_fits(ps[y]));
                } else {
                    let y = x - kept_s.len();
                    assert(pass[x] == q[y]);
                    assert(old_self.floor_ok(fl));
                }
            }
            assert(self.elevator_ok(self.elevators@[elevator as int]));
            assert forall|h: int| 0 <= h < self.nelevators() implies #[trigger] self.elevator_ok(self.elevators@[h]) by {
                if h != elevator {
                    assert(old_self.elevator_ok(old_self.elevators@[h]));
                    assert(self.elevators@[h] == old_self.elevators@[h]);
                }
            }
            let oq = old_self.floors@[fl].people@;
            let nq = self.floors@[fl].people@;
            assert(nq =~= oq.update(elevator as int, nq[elevator as int]));
            lemma_queued_update(oq, elevator as int, nq[elevator as int], oq.len() as int);
            assert forall|g: int| 0 <= g < self.nfloors() implies #[trigger] self.floor_ok(g) by {
                assert(old_self.floor_ok(g));
                if g == fl {
                    assert forall|h: int, x: int|
                        0 <= h < self.nelevators() && 0 <= x < self.floors@[g].people@[h]@.len() implies {
                            let p = #[trigger] self.floors@[g].people@[h]@[x];
                            p.src == g && self.person_fits(p)
                        } by {
                        if h == elevator {
                            assert(self.floors@[g].people@[h]@[x] == q[x + entering]);
                        } else {
                            assert(self.floors@[g].people@[h] == old_self.floors@[g].people@[h]);
                        }
                    }
                } else {
                    assert(self.floors@[g] == old_self.floors@[g]);
                }
            }
        }
    }
}


/// Number of elevators among the first `n` that are free by time `t`.
pub open spec fn count_free(es: Seq<Elevator>, t: int, n: int) -> int
    decreases n,
{
    if n <= 0 {
        0
    } else {
        count_free(es, t, n - 1) + if es[n - 1].busy_until <= t { 1int } else { 0int }
    }
}

/// Number of wait commands among the first `n` that are due by time `t`.
pub open spec fn count_due(ws: Seq<u64>, t: int, n: int) -> int
    decreases n,
{
    if n <= 0 {
        0
    } else {
        count_due(ws, t, n - 1) + if ws[n - 1] <= t { 1int } else { 0int }
    }
}

proof fn lemma_count_free_bounds(es: Seq<Elevator>, t: int, n: int)
    requires
        0 <= n,
    ensures
        0 <= count_free(es, t, n) <= n,
    decreases n,
{
    if n > 0 {
        lemma_count_free_bounds(es, t, n - 1);
    }
}

/// Occupying one free elevator lowers the number of free elevators.
proof fn lemma_count_free_occupy(es: Seq<Elevator>, fs: Seq<Elevator>, t: int, i: int, n: int)
    requires
        0 <= n <= es.len(),
        es.len() == fs.len(),
        0 <= i < es.len(),
        es[i].busy_until <= t,
        fs[i].busy_until > t,
        forall|j: int| 0 <= j < es.len() && j != i ==> (#[trigger] fs[j]).busy_until == es[j].busy_until,
    ensures
        count_free(fs, t, n) == count_free(es, t, n) - (if i < n { 1int } else { 0int }),
    decreases n,
{
    if n > 0 {
        lemma_count_free_occupy(es, fs, t, i, n - 1);
    }
}

proof fn lemma_count_free_same(es: Seq<Elevator>, fs: Seq<Elevator>, t: int, n: int)
    requires
        0 <= n <= es.len(),
        es.len() == fs.len(),
        forall|j: int| 0 <= j < es.len() ==> (#[trigger] fs[j]).busy_until == es[j].busy_until,
    ensures
        count_free(fs, t, n) == count_free(es, t, n),
    decreases n,
{
    if n > 0 {
        lemma_count_free_same(es, fs, t, n - 1);
    }
}

proof fn lemma_count_due_bounds(ws: Seq<u64>, t: int, n: int)
    requires
        0 <= n,
    ensures
        0 <= count_due(ws, t, n) <= n,
    decreases n,
{
    if n > 0 {
        lemma_count_due_bounds(ws, t, n - 1);
    }
}

/// Moving wait commands later never makes more of them due by `t`; moving
/// one that is due past `t` makes fewer.
proof fn lemma_count_due_later(ws: Seq<u64>, vs: Seq<u64>, t: int, n: int)
    requires
        0 <= n <= ws.len(),
        ws.len() == vs.len(),
        forall|j: int| 0 <= j < ws.len() ==> (#[trigger] vs[j]) >= ws[j],
    ensures
        count_due(vs, t, n) <= count_due(ws, t, n),
        forall|i: int| 0 <= i < n && ws[i] <= t && #[trigger] vs[i] > t ==> count_due(vs, t, n) < count_due(ws, t, n),
    decreases n,
{
    if n > 0 {
        lemma_count_due_later(ws, vs, t, n - 1);
    }
}

impl Building {
    /// Passengers whose destination is where their elevator stands leave it
    /// only after the statistics window starting at `stats_start` began.
    pub open spec fn exits_after(&self, stats_start: int, t: int) -> bool {
        forall|e: int, i: int|
            0 <= e < self.nelevators() && 0 <= i < self.elevators@[e].passengers@.len()
                && (#[trigger] self.elevators@[e].passengers@[i]).dest * self.time_per_floor == self.elevators@[e].pos
                ==> stats_start < t
    }

    /// Whether every passenger whose destination is where their elevator
    /// stands would leave after the statistics start at `stats_start`.
    pub fn all_exits_after(&self, stats_start: u64) -> (r: bool)
        requires
            self.wf(),
        ensures
            r == self.exits_after(stats_start as int, self.prev_time as int),
    {
        if stats_start < self.prev_time {
            return true;
        }
        let ne = self.elevators.len();
        let mut e: usize = 0;
        while e < ne
            invariant
                self.wf(),
                stats_start >= self.prev_time,
                ne == self.nelevators(),
                e <= ne,
                forall|x: int, i: int|
                    0 <= x < e && 0 <= i < self.elevators@[x].passengers@.len() ==> (#[trigger] self.elevators@[x].passengers@[i]).dest
                        * self.time_per_floor != self.elevators@[x].pos,
            decreases ne - e,
        {
            let el = &self.elevators[e];
            let np = el.passengers.len();
            let mut i: usize = 0;
            proof {
                assert(self.elevator_ok(self.elevators@[e as int]));
            }
            while i < np
                invariant
                    self.wf(),
                    stats_start >= self.prev_time,
                    e < ne,
                    ne == self.nelevators(),
                    el == self.elevators@[e as int],
                    self.elevator_ok(*el),
                    np == el.passengers@.len(),
                    i <= np,
                    forall|j: int| 0 <= j < i ==> (#[trigger] el.passengers@[j]).dest * self.time_per_floor != el.pos,
                decreases np - i,
            {
                let d = el.passengers[i].dest;
                proof {
                    assert(self.person_fits(el.passengers@[i as int]));
                    lemma_floor_position(d as int, self.nfloors(), self.time_per_floor as int);
                }
                if d as u64 * self.time_per_floor == el.pos {
                    proof {
                        assert(self.elevators@[e as int].passengers@[i as int].dest * self.time_per_floor
                            == self.elevators@[e as int].pos);
                    }
                    return false;
                }
                i = i + 1;
            }
            e = e + 1;
        }
        true
    }

    /// The state that a simulation keeps between events: a runnable
    /// building; a policy, commands, traffic and statistics consistent with
    /// it at the time of its last event.
    pub open spec fn sim_inv<P: Policy, T: Traffic>(
        &self,
        until: int,
        policy: P,
        decision: Decision,
        traffic: T,
        stats: Stats,
    ) -> bool {
        &&& self.runnable()
        &&& self.time_per_stop > 0
        &&& self.prev_time <= until <= TIME_LIMIT
        &&& policy.inv(self.nfloors(), self.nelevators(), self.prev_time as int)
        &&& decision.fits(self)
        &&& decision.waits_from(self.prev_time as int)
        &&& traffic.ready(self.prev_time as int)
        &&& traffic.fits_floors(self.nfloors())
        &&& stats.wf()
        &&& stats.start <= self.prev_time
        &&& stats.start < until
        &&& until + stats.window <= u64::MAX
        &&& self.exits_after(stats.start as int, self.prev_time as int)
    }
}


/// An elevator that travels for exactly the distance to its target is there.
proof fn lemma_moved_arrives(pos: int, target: int, start: int, until: int)
    requires
        until == start + (if pos >= target { pos - target } else { target - pos }),
    ensures
        moved_pos(pos, target, start, until) == target,
{
}

/// An elevator that may not start before `until` stays where it is.
proof fn lemma_moved_still(pos: int, target: int, start: int, until: int)
    requires
        until <= start,
    ensures
        moved_pos(pos, target, start, until) == pos,
{
}

/// Distinct floors have distinct positions.
proof fn lemma_positions_distinct(a: int, b: int, tpf: int)
    by (nonlinear_arith)
    requires
        tpf > 0,
        a * tpf == b * tpf,
    ensures
        a == b,
{
}

/// Index of the first smallest value.
fn first_min(v: &Vec<u64>) -> (r: usize)
    requires
        v@.len() > 0,
    ensures
        r < v@.len(),
        forall|j: int| 0 <= j < v@.len() ==> v@[r as int] <= #[trigger] v@[j],
        forall|j: int| 0 <= j < r ==> v@[r as int] < #[trigger] v@[j],
{
    let mut best: usize = 0;
    let mut i: usize = 1;
    while i < v.len()
        invariant
            1 <= i <= v@.len(),
            best < i,
            forall|j: int| 0 <= j < i ==> v@[best as int] <= #[trigger] v@[j],
            forall|j: int| 0 <= j < best ==> v@[best as int] < #[trigger] v@[j],
        decreases v@.len() - i,
    {
        if v[i] < v[best] {
            best = i;
        }
        i = i + 1;
    }
    best
}

impl Building {
    /// Handles an elevator reaching its destination: passengers leave and
    /// enter, then the policy is told.
    fn on_arrival<P: Policy>(
        &mut self,
        arriving: usize,
        time: u64,
        policy: &mut P,
        decision: &mut Decision,
        stats: &mut Stats,
    )
        requires
            old(self).runnable(),
            arriving < old(self).nelevators(),
            old(decision).fits(old(self)),
            old(decision).dests@[arriving as int] is Some,
            old(self).elevators@[arriving as int].pos == old(decision).dests@[arriving as int]->0
                * old(self).time_per_floor,
            old(self).prev_time <= time <= TIME_LIMIT,
            old(policy).inv(old(self).nfloors(), old(self).nelevators(), old(self).prev_time as int),
            old(decision).waits_from(time as int),
            old(stats).wf(),
            old(stats).start <= time,
            time + old(stats).window <= u64::MAX,
            old(self).exits_after(old(stats).start as int, time as int),
        ensures
            final(self).runnable(),
            final(self).nfloors() == old(self).nfloors(),
            final(self).nelevators() == old(self).nelevators(),
            final(self).time_per_floor == old(self).time_per_floor,
            final(self).time_per_stop == old(self).time_per_stop,
            final(self).prev_time == time,
            final(self).prev_req_time == old(self).prev_req_time,
            final(policy).inv(old(self).nfloors(), old(self).nelevators(), time as int),
            final(decision).fits(final(self)),
            final(decision).waits_from(time as int),
            final(decision).waits_set_from(old(decision), time as int),
            final(stats).wf(),
            final(stats).start <= time,
            final(stats).start == old(stats).start || final(stats).start < time,
            final(stats).window == old(stats).window,
            final(stats).max_time_len == old(stats).max_time_len,
            final(self).exits_after(final(stats).start as int, time as int),
            final(self).elevators@[arriving as int].busy_until == time + old(self).time_per_stop,
            forall|j: int|
                0 <= j < old(self).nelevators() ==> (#[trigger] final(self).elevators@[j]).capacity
                    == old(self).elevators@[j].capacity,
            forall|j: int|
                0 <= j < old(self).nelevators() && j != arriving ==> (#[trigger] final(self).elevators@[j]).busy_until
                    == old(self).elevators@[j].busy_until,
            arrival_effect(
                *old(self),
                *final(self),
                *old(policy),
                *final(policy),
                *old(decision),
                *final(decision),
                old(stats)@,
                final(stats)@,
                arriving as int,
                time as int,
            ),
    {
        let ghost f = old(decision).dests@[arriving as int]->0 as int;
        let ghost d0 = *decision;
        let ghost p0 = *policy;
        let ghost s0 = stats@;
        proof {
            let ps = old(self).elevators@[arriving as int].passengers@;
            let lv = leaving(ps, f);
            if lv.len() > 0 {
                ps.lemma_filter_pred(|p: Person| p.dest == f, 0);
                ps.lemma_filter_contains_rev(|p: Person| p.dest == f, lv[0]);
                assert(lv.contains(lv[0]));
                let i = choose|i: int| 0 <= i < ps.len() && ps[i] == lv[0];
                assert(old(self).elevators@[arriving as int].passengers@[i].dest * old(self).time_per_floor
                    == old(self).elevators@[arriving as int].pos);
            }
        }
        self.arrive(arriving, time, decision, stats);
        let ghost d1 = *decision;
        proof {
            let ops = old(self).elevators@[arriving as int].passengers@;
            let kept = staying(ops, f);
            let q = old(self).floors@[f].people@[arriving as int]@;
            let pass = self.elevators@[arriving as int].passengers@;
            assert forall|i: int| 0 <= i < pass.len() implies (#[trigger] pass[i]).dest * self.time_per_floor
                != self.elevators@[arriving as int].pos by {
                let p = pass[i];
                if p.dest * self.time_per_floor == self.elevators@[arriving as int].pos {
                    assert(self.elevators@[arriving as int].pos == f * self.time_per_floor);
                    lemma_positions_distinct(p.dest as int, f, self.time_per_floor as int);
                    if i < kept.len() {
                        ops.lemma_filter_pred(|p: Person| p.dest != f, i);
                        assert(p == kept[i]);
                    } else {
                        assert(old(self).floor_ok(f));
                        ops.lemma_filter_len(|p: Person| p.dest != f);
                        assert(old(self).elevator_ok(old(self).elevators@[arriving as int]));
                        let room = old(self).elevators@[arriving as int].capacity - kept.len();
                        let k = if room < q.len() { room } else { q.len() as int };
                        assert(pass == kept + q.take(k));
                        assert((kept + q.take(k))[i] == q.take(k)[i - kept.len()]);
                        assert(p == q[i - kept.len()]);
                    }
                }
            }
        }
        proof {
            lemma_floor_of_position(f, self.time_per_floor as int);
        }
        policy.arrival(self, decision, arriving);
        proof {
            policy.lemma_inv_later(self.nfloors(), self.nelevators(), self.prev_time as int, time as int);
            assert(decision.waits_set_from(&d0, time as int));
        }
        let ghost b = *self;
        let ghost d1_pass = b.elevators@[arriving as int].passengers@;
        self.prev_time = time;
        proof {
            assert(old(self).doors_opened(&b, arriving as int, f, time as int, s0, stats@));
            assert(p0.arrived(&*policy, &b, &d1, &*decision, (arriving as int) as usize));
            assert(d1.dests@ == d0.dests@.update(arriving as int, None));
            assert(self.same_but_time(&b, time as int));
            assert forall|g: int| 0 <= g < self.nfloors() implies #[trigger] self.floor_ok(g) by {
                assert(b.floor_ok(g));
            }
            assert forall|e: int| 0 <= e < self.nelevators() implies #[trigger] self.elevator_ok(self.elevators@[e]) by {
                assert(b.elevator_ok(b.elevators@[e]));
            }
            assert forall|e2: int, i: int|
                0 <= e2 < self.nelevators() && 0 <= i < self.elevators@[e2].passengers@.len()
                    && (#[trigger] self.elevators@[e2].passengers@[i]).dest * self.time_per_floor
                    == self.elevators@[e2].pos implies stats.start < time by {
                let p = self.elevators@[e2].passengers@[i];
                if e2 == arriving {
                    assert(p == d1_pass[i]);
                    assert(false);
                } else {
                    assert(self.elevators@[e2] == old(self).elevators@[e2]);
                    assert(old(self).elevators@[e2].passengers@[i].dest * old(self).time_per_floor
                        == old(self).elevators@[e2].pos);
                    assert(old(stats).start < time);
                }
            }
        }
    }

    /// Handles a new request from the traffic: the person is assigned an
    /// elevator by the policy and waits for it, unless the floor is full.
    fn on_request<P: Policy, T: Traffic>(
        &mut self,
        time: u64,
        policy: &mut P,
        decision: &mut Decision,
        traffic: &mut T,
    )
        requires
            old(self).runnable(),
            old(self).prev_time <= time <= TIME_LIMIT,
            old(policy).inv(old(self).nfloors(), old(self).nelevators(), old(self).prev_time as int),
            old(decision).fits(old(self)),
            old(decision).waits_from(time as int),
            old(traffic).ready(time as int),
            old(traffic).can_next(),
            old(traffic).fits_floors(old(self).nfloors()),
        ensures
            final(self).runnable(),
            final(self).nfloors() == old(self).nfloors(),
            final(self).nelevators() == old(self).nelevators(),
            final(self).time_per_floor == old(self).time_per_floor,
            final(self).time_per_stop == old(self).time_per_stop,
            final(self).prev_time == time,
            final(self).prev_req_time == time,
            final(self).elevators == old(self).elevators,
            final(policy).inv(old(self).nfloors(), old(self).nelevators(), time as int),
            final(decision).fits(final(self)),
            final(decision).waits_from(time as int),
            final(decision).waits_set_from(old(decision), time as int),
            final(traffic).ready(time as int),
            final(traffic).fits_floors(old(self).nfloors()),
            final(traffic).spec_when() == 0 ==> final(traffic).zero_run(time as int) < old(traffic).zero_run(
                time as int,
            ),
            request_effect(
                *old(self),
                *final(self),
                *old(policy),
                *final(policy),
                *old(decision),
                *final(decision),
                *old(traffic),
                *final(traffic),
                time as int,
            ),
    {
        let ghost b0 = *self;
        let ghost p0 = *policy;
        let ghost d0 = *decision;
        let ghost t0 = *traffic;
        let (src, dest) = traffic.next(time);
        let ghost r = (src, dest);
        proof {
            assert(old(traffic).fits_floors(self.nfloors()));
        }
        if self.waiting_at(src) < MAX_WAITING {
            let new = Person { src, dest, req_time: time };
            let assignment = policy.request(self, decision, &new);
            proof {
                policy.lemma_inv_later(self.nfloors(), self.nelevators(), self.prev_time as int, time as int);
            }
            let ghost before = *self;
            self.prev_req_time = time;
            self.prev_time = time;
            proof {
                assert(before.floor_ok(src as int));
            }
            let ghost oq = self.floors@[src as int].people@;
            self.floors[src].people[assignment].push_back(new);
            proof {
                assert(new == requester(r, time as int));
                assert(p0.requested(&*policy, &b0, &d0, &*decision, &new, assignment));
                assert forall|g: int| 0 <= g < b0.nfloors() && g != src implies #[trigger] self.floors@[g] == b0.floors@[g] by {
                    assert(self.floors@[g] == before.floors@[g]);
                }
                assert(b0.person_queued(&*self, new, assignment as int));
                assert(t0.made(&*traffic, time as int, r));
                let nq = self.floors@[src as int].people@;
                assert(nq =~= oq.update(assignment as int, nq[assignment as int]));
                lemma_queued_push(oq, assignment as int, nq[assignment as int], oq.len() as int);
                assert forall|e: int| 0 <= e < self.nelevators() implies #[trigger] self.elevator_ok(self.elevators@[e]) by {
                    assert(before.elevator_ok(before.elevators@[e]));
                }
                assert forall|g: int| 0 <= g < self.nfloors() implies #[trigger] self.floor_ok(g) by {
                    assert(before.floor_ok(g));
                    if g == src {
                        assert forall|h: int, x: int|
                            0 <= h < self.nelevators() && 0 <= x < self.floors@[g].people@[h]@.len() implies {
                                let p = #[trigger] self.floors@[g].people@[h]@[x];
                                p.src == g && self.person_fits(p)
                            } by {
                            if h == assignment && x == oq[h]@.len() {
                            } else {
                                assert(self.floors@[g].people@[h]@[x] == before.floors@[g].people@[h]@[x]);
                            }
                        }
                    } else {
                        assert(self.floors@[g] == before.floors@[g]);
                    }
                }
            }
        } else {
            let ghost before = *self;
            self.prev_req_time = time;
            self.prev_time = time;
            proof {
                assert forall|e: int| 0 <= e < self.nelevators() implies #[trigger] self.elevator_ok(self.elevators@[e]) by {
                    assert(before.elevator_ok(before.elevators@[e]));
                }
                assert forall|g: int| 0 <= g < self.nfloors() implies #[trigger] self.floor_ok(g) by {
                    assert(before.floor_ok(g));
                }
                policy.lemma_inv_later(self.nfloors(), self.nelevators(), before.prev_time as int, time as int);
                assert(t0.made(&*traffic, time as int, r));
            }
        }
    }
}


/// When the next request is due: the traffic's delay after the previous
/// request, but not before the last event.
pub open spec fn next_request_time(prev_time: int, prev_req_time: int, when: int) -> int {
    let due = if when + prev_req_time > u64::MAX { u64::MAX as int } else { when + prev_req_time };
    if prev_time >= due { prev_time } else { due }
}

impl Building {
    /// Number of requests that may still come at the time of the last event.
    pub open spec fn pending_now<T: Traffic>(&self, traffic: T) -> int {
        if next_request_time(self.prev_time as int, self.prev_req_time as int, traffic.spec_when() as int)
            == self.prev_time {
            traffic.zero_run(self.prev_time as int) + 1int
        } else {
            0
        }
    }

    /// Simulates the building up to time `until`. Events happen in time
    /// order: an elevator arriving at its destination, a wait command coming
    /// due, or a new request from the traffic; on a tie, arrivals go first,
    /// then waits, then requests. `ran` states the whole run, event by event.
    pub fn run<P: Policy, T: Traffic>(
        &mut self,
        until: u64,
        policy: &mut P,
        decision: &mut Decision,
        traffic: &mut T,
        stats: &mut Stats,
    )
        requires
            old(self).sim_inv(until as int, *old(policy), *old(decision), *old(traffic), *old(stats)),
        ensures
            final(self).sim_inv(until as int, *final(policy), *final(decision), *final(traffic), *final(stats)),
            final(self).prev_time == until,
            final(self).nfloors() == old(self).nfloors(),
            final(self).nelevators() == old(self).nelevators(),
            final(self).time_per_floor == old(self).time_per_floor,
            final(self).time_per_stop == old(self).time_per_stop,
            final(decision).waits_from(until as int),
            final(stats).start < until,
            final(stats).window == old(stats).window,
            final(stats).max_time_len == old(stats).max_time_len,
            forall|e: int|
                0 <= e < old(self).nelevators() ==> (#[trigger] final(self).elevators@[e]).capacity
                    == old(self).elevators@[e].capacity,
            ran(
                *old(self),
                *old(policy),
                *old(decision),
                *old(traffic),
                old(stats)@,
                *final(self),
                *final(policy),
                *final(decision),
                *final(traffic),
                final(stats)@,
                until as int,
            ),
    {
        let ghost nf = self.nfloors();
        let ghost ne = self.nelevators();
        let ghost tpf = self.time_per_floor;
        let ghost tps = self.time_per_stop;
        let ghost init = Snapshot { building: *self, policy: *policy, decision: *decision, traffic: *traffic, stats: stats@ };
        let ghost mut trace: Seq<Snapshot<P, T>> = seq![init];
        loop
            invariant
                trace.len() > 0,
                trace[0] == init,
                forall|i: int| 0 <= i < trace.len() ==> #[trigger] trace[i].sound(),
                trace.last().building == *self,
                trace.last().policy == *policy,
                trace.last().decision == *decision,
                trace.last().traffic == *traffic,
                trace.last().stats == stats@,
                forall|i: int| 0 <= i < trace.len() - 1 ==> #[trigger] event_at(trace, i, until as int),
                self.sim_inv(until as int, *policy, *decision, *traffic, *stats),
                self.nfloors() == nf,
                self.nelevators() == ne,
                self.time_per_floor == tpf,
                self.time_per_stop == tps,
                stats.window == old(stats).window,
                stats.max_time_len == old(stats).max_time_len,
                forall|e: int| 0 <= e < ne ==> (#[trigger] self.elevators@[e]).capacity == old(self).elevators@[e].capacity,
            ensures
                trace.len() > 0,
                trace[0] == init,
                forall|i: int| 0 <= i < trace.len() ==> #[trigger] trace[i].sound(),
                trace.last().building == *self,
                trace.last().policy == *policy,
                trace.last().decision == *decision,
                trace.last().traffic == *traffic,
                trace.last().stats == stats@,
                forall|i: int| 0 <= i < trace.len() - 1 ==> #[trigger] event_at(trace, i, until as int),
                trace.last().quiet(until as int),
                self.sim_inv(until as int, *policy, *decision, *traffic, *stats),
                self.nfloors() == nf,
                self.nelevators() == ne,
                self.time_per_floor == tpf,
                self.time_per_stop == tps,
                decision.waits_from(until as int),
                stats.window == old(stats).window,
                stats.max_time_len == old(stats).max_time_len,
                forall|e: int| 0 <= e < ne ==> (#[trigger] self.elevators@[e]).capacity == old(self).elevators@[e].capacity,
            decreases
                until - self.prev_time,
                count_free(self.elevators@, self.prev_time as int, ne),
                self.pending_now(*traffic),
                count_due(decision.waits@, self.prev_time as int, ne),
        {
            if self.prev_time >= until {
                break;
            }
            proof {
                lemma_count_due_bounds(decision.waits@, self.prev_time as int, ne);
                lemma_count_free_bounds(self.elevators@, self.prev_time as int, ne);
            }
            let ghost q2 = count_due(decision.waits@, self.prev_time as int, ne);
            let ghost q1 = count_free(self.elevators@, self.prev_time as int, ne);
            let ghost q3 = self.pending_now(*traffic);
            let ghost prev = self.prev_time;
            let ghost b0 = *self;
            let ghost s0 = trace.last();

            // The next event of each kind.
            let (arriving, arrival_time) = self.next_arrival(&decision.dests);
            let waiting = first_min(&decision.waits);
            let wait_time = decision.waits[waiting];
            let when = traffic.when();
            let due = if when > u64::MAX - self.prev_req_time {
                u64::MAX
            } else {
                when + self.prev_req_time
            };
            let next_request = if self.prev_time >= due { self.prev_time } else { due };

            // The earliest event; ties go to the first kind.
            let (next_event, time) = if arrival_time <= wait_time && arrival_time <= next_request {
                (0u8, arrival_time)
            } else if wait_time <= next_request {
                (1u8, wait_time)
            } else {
                (2u8, next_request)
            };
            proof {
                if arrival_time < u64::MAX {
                    assert(decision.dests@[arriving as int] is Some);
                    assert(arrival_time >= self.start_time(arriving as int));
                }
                assert(wait_time >= self.prev_time);
            }
            assert(time >= self.prev_time);
            proof {
                assert(s0.first_arrival(arriving as int));
                assert(s0.first_wait(waiting as int));
                assert(s0.request_time() == next_request);
                assert(s0.arrival_of(arriving as int) == arrival_time);
            }
            if time > until {
                proof {
                    assert forall|j: int| 0 <= j < ne implies #[trigger] s0.arrival_of(j) > until by {
                        assert(arrival_time <= s0.arrival_of(j));
                    }
                    assert forall|j: int| 0 <= j < decision.waits@.len() implies #[trigger] decision.waits@[j] > until by {
                        assert(wait_time <= decision.waits@[j]);
                    }
                }
                break;
            }
            self.move_elevators(time, &decision.dests);
            let ghost m = *self;
            proof {
                // Elevators only move when time passes.
                if time == prev {
                    assert forall|e: int| 0 <= e < ne implies #[trigger] self.elevators@[e].pos == b0.elevators@[e].pos by {
                        if decision.dests@[e] is Some {
                            lemma_moved_still(
                                b0.elevators@[e].pos as int,
                                decision.dests@[e]->0 * tpf,
                                b0.start_time(e),
                                time as int,
                            );
                        }
                    }
                }
                assert(self.exits_after(stats.start as int, time as int)) by {
                    if time == prev {
                        assert forall|e: int, i: int|
                            0 <= e < ne && 0 <= i < self.elevators@[e].passengers@.len()
                                && (#[trigger] self.elevators@[e].passengers@[i]).dest * tpf
                                == self.elevators@[e].pos implies stats.start < time by {
                            assert(self.elevators@[e].pos == b0.elevators@[e].pos);
                            assert(b0.elevators@[e].passengers@[i].dest * tpf == b0.elevators@[e].pos);
                        }
                    }
                }
                lemma_count_free_same(b0.elevators@, self.elevators@, prev as int, ne);
            }
            let ghost mut dm = *decision;
            if next_event == 0 {
                proof {
                    assert(decision.dests@[arriving as int] is Some);
                    let d = decision.dests@[arriving as int]->0;
                    b0.lemma_arrival_fits(arriving as int, d as int);
                    lemma_moved_arrives(
                        b0.elevators@[arriving as int].pos as int,
                        d * tpf,
                        b0.start_time(arriving as int),
                        time as int,
                    );
                }
                let ghost es = self.elevators@;
                let ghost ws = decision.waits@;
                self.on_arrival(arriving, time, policy, decision, stats);
                proof {
                    if time == prev {
                        lemma_count_free_occupy(es, self.elevators@, prev as int, arriving as int, ne);
                        assert(count_free(self.elevators@, self.prev_time as int, ne) < q1);
                    }
                    traffic.lemma_ready_later(prev as int, time as int);
                }
            } else if next_event == 1 {
                let ghost ws = decision.waits@;
                decision.waits.set(waiting, u64::MAX);
                let ghost ws1 = decision.waits@;
                proof {
                    dm = *decision;
                }
                policy.waited(self, decision, waiting);
                proof {
                    policy.lemma_inv_later(nf, ne, prev as int, time as int);
                    assert forall|j: int| 0 <= j < ws.len() implies (#[trigger] decision.waits@[j]) >= ws[j] by {
                        assert(decision.waits@[j] >= ws1[j]);
                    }
                    lemma_count_due_later(ws, decision.waits@, prev as int, ne);
                }
                let ghost b1 = *self;
                self.prev_time = time;
                proof {
                    assert forall|g: int| 0 <= g < nf implies #[trigger] self.floor_ok(g) by {
                        assert(b1.floor_ok(g));
                    }
                    assert forall|e: int| 0 <= e < ne implies #[trigger] self.elevator_ok(self.elevators@[e]) by {
                        assert(b1.elevator_ok(b1.elevators@[e]));
                    }
                    lemma_count_free_same(b1.elevators@, self.elevators@, prev as int, ne);
                    traffic.lemma_ready_later(prev as int, time as int);
                    assert(ws1[waiting as int] == u64::MAX);
                    assert(decision.waits@[waiting as int] == u64::MAX);
                    if time == prev {
                        assert(count_due(decision.waits@, self.prev_time as int, ne) < q2);
                        assert(self.pending_now(*traffic) == q3);
                    }
                }
            } else {
                proof {
                    assert(when < u64::MAX);
                    traffic.lemma_when_finite(prev as int);
                    traffic.lemma_ready_later(prev as int, time as int);
                }
                let ghost ws = decision.waits@;
                let ghost es = self.elevators@;
                let ghost t0 = *traffic;
                self.on_request(time, policy, decision, traffic);
                proof {
                    lemma_count_free_same(es, self.elevators@, prev as int, ne);
                    if time == prev {
                        assert(count_free(self.elevators@, self.prev_time as int, ne) == q1);
                        assert(next_request == prev);
                        assert(q3 == t0.zero_run(prev as int) + 1);
                        assert(self.pending_now(*traffic) < q3);
                    }
                }
            }
            proof {
                let s1 = Snapshot { building: *self, policy: *policy, decision: *decision, traffic: *traffic, stats: stats@ };
                assert(s0.building.moved_to(&m, s0.decision.dests@, time as int));
                if next_event == 0 {
                    assert(s0.arrival_event(&s1, arriving as int, time as int));
                } else if next_event == 1 {
                    assert(s0.policy.wait_handled(&s1.policy, &m, &dm, &s1.decision, (waiting as int) as usize));
                    assert(s0.wait_event(&s1, waiting as int, time as int));
                } else {
                    assert(s0.request_event(&s1, time as int));
                }
                assert(s0.event(&s1, until as int));
                let t2 = trace.push(s1);
                assert forall|i: int| 0 <= i < t2.len() - 1 implies #[trigger] event_at(t2, i, until as int) by {
                    if i < trace.len() - 1 {
                        assert(event_at(trace, i, until as int));
                        assert(t2[i] == trace[i]);
                        assert(t2[i + 1] == trace[i + 1]);
                    } else {
                        assert(t2[i] == s0);
                        assert(t2[i + 1] == s1);
                    }
                }
                assert forall|i: int| 0 <= i < t2.len() implies #[trigger] t2[i].sound() by {
                    if i < trace.len() {
                        assert(t2[i] == trace[i]);
                    }
                }
                trace = t2;
            }
            proof {
                lemma_count_due_bounds(decision.waits@, self.prev_time as int, ne);
                lemma_count_free_bounds(self.elevators@, self.prev_time as int, ne);
                assert(self.runnable());
                assert(self.time_per_stop > 0);
                assert(self.prev_time <= until <= TIME_LIMIT);
                assert(policy.inv(nf, ne, self.prev_time as int));
                assert(decision.fits(self));
                assert(decision.waits_from(self.prev_time as int));
                assert(traffic.ready(self.prev_time as int));
                assert(traffic.fits_floors(nf));
                assert(stats.wf());
                assert(stats.start <= self.prev_time);
                assert(stats.start < until);
                assert(until + stats.window <= u64::MAX);
                assert(self.exits_after(stats.start as int, self.prev_time as int));
            }
        }
        let ghost b0 = *self;
        self.move_elevators(until, &decision.dests);
        proof {
            if until == b0.prev_time {
                assert forall|e: int| 0 <= e < ne implies #[trigger] self.elevators@[e].pos == b0.elevators@[e].pos by {
                    if decision.dests@[e] is Some {
                        lemma_moved_still(
                            b0.elevators@[e].pos as int,
                            decision.dests@[e]->0 * tpf,
                            b0.start_time(e),
                            until as int,
                        );
                    }
                }
            }
            policy.lemma_inv_later(nf, ne, b0.prev_time as int, until as int);
            traffic.lemma_ready_later(b0.prev_time as int, until as int);
        }
        let ghost b1 = *self;
        self.prev_time = until;
        stats.tick(until);
        proof {
            let last = trace.last();
            assert(last.building.moved_to(&*self, last.decision.dests@, until as int));
            assert(stats@ == last.stats.tick(until as int));
            assert(trace[0].building == *old(self));
            assert(ran_by(
                trace,
                *old(self),
                *old(policy),
                *old(decision),
                *old(traffic),
                old(stats)@,
                *self,
                *policy,
                *decision,
                *traffic,
                stats@,
                until as int,
            ));
            assert forall|g: int| 0 <= g < nf implies #[trigger] self.floor_ok(g) by {
                assert(b1.floor_ok(g));
            }
            assert forall|e: int| 0 <= e < ne implies #[trigger] self.elevator_ok(self.elevators@[e]) by {
                assert(b1.elevator_ok(b1.elevators@[e]));
            }
        }
    }
}

} // verus!
