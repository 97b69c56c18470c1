use crate::building::{lemma_position_floor, Building, Person, MAX_FLOORS, MAX_TIME_PER_FLOOR};
use crate::policy::{Decision, Policy};
use vstd::prelude::*;

verus! {

/// How many floors an elevator sweeping the building (up to the top, then
/// down to the ground floor, and so on) travels from `from` to `to`, and the
/// direction it is heading when it gets there.
pub open spec fn scan_distance(num_floors: int, from: int, to: int, moving_up: bool) -> (int, bool) {
    let top = num_floors - 1;
    if moving_up {
        if to >= from {
            (to - from, moving_up)
        } else {
            (top - from + top - to, !moving_up)
        }
    } else if to <= from {
        (from - to, moving_up)
    } else {
        (from + to, !moving_up)
    }
}

/// The floor next to `floor` in the direction of travel, or `floor` itself
/// when it is the target.
pub open spec fn spec_next_floor(floor: int, target: int, moving_up: bool) -> int {
    if target == floor {
        floor
    } else if moving_up {
        floor + 1
    } else {
        floor - 1
    }
}

/// Time for a sweeping elevator at `pos` to pick a person up at `src` and
/// bring them to `dest`.
pub open spec fn spec_estimated_latency(
    num_floors: int,
    time_per_floor: int,
    src: int,
    dest: int,
    pos: int,
    moving_up: bool,
) -> int {
    let current_floor = pos / time_per_floor;
    let pickup = scan_distance(num_floors, current_floor, src, moving_up);
    let offset = pos % time_per_floor;
    let pickup_time = if pickup.0 * time_per_floor >= offset { pickup.0 * time_per_floor - offset } else { 0 };
    let dropoff = scan_distance(num_floors, src, dest, pickup.1);
    pickup_time + dropoff.0 * time_per_floor
}

/// A sweeping elevator covers at least the direct distance between two
/// floors of the building, exactly that when it is already heading that way.
pub proof fn lemma_scan_distance(num_floors: int, from: int, to: int, moving_up: bool)
    requires
        0 <= from < num_floors,
        0 <= to < num_floors,
    ensures
        scan_distance(num_floors, from, to, moving_up).0 >= (if to >= from { to - from } else { from - to }),
        (moving_up && to >= from) || (!moving_up && to <= from) ==> scan_distance(num_floors, from, to, moving_up)
            == (if to >= from { to - from } else { from - to }, moving_up),
{
}

/// The estimated latency of a sweeping elevator includes bringing the
/// person from their floor to their destination: at least the direct
/// travel time between the two floors, on top of the time to pick them up
/// (at least the travel to their floor, less the way already made toward
/// the next floor).
pub proof fn lemma_latency_covers_trip(
    num_floors: int,
    time_per_floor: int,
    src: int,
    dest: int,
    pos: int,
    moving_up: bool,
)
    requires
        0 <= src < num_floors,
        0 <= dest < num_floors,
        time_per_floor > 0,
        0 <= pos <= (num_floors - 1) * time_per_floor,
    ensures
        ({
            let direct = if dest >= src { dest - src } else { src - dest };
            let floor = pos / time_per_floor;
            let to_src = if src >= floor { src - floor } else { floor - src };
            &&& spec_estimated_latency(num_floors, time_per_floor, src, dest, pos, moving_up) >= direct * time_per_floor
            &&& spec_estimated_latency(num_floors, time_per_floor, src, dest, pos, moving_up) >= direct * time_per_floor
                + to_src * time_per_floor - pos % time_per_floor
        }),
{
    let floor = pos / time_per_floor;
    assert(0 <= floor < num_floors) by {
        lemma_position_floor(pos, num_floors, time_per_floor);
    }
    let pickup = scan_distance(num_floors, floor, src, moving_up);
    lemma_scan_distance(num_floors, floor, src, moving_up);
    lemma_scan_distance(num_floors, src, dest, pickup.1);
    let dropoff = scan_distance(num_floors, src, dest, pickup.1);
    let direct = if dest >= src { dest - src } else { src - dest };
    let to_src = if src >= floor { src - floor } else { floor - src };
    assert(dropoff.0 * time_per_floor >= direct * time_per_floor) by (nonlinear_arith)
        requires
            dropoff.0 >= direct,
            time_per_floor > 0,
    ;
    assert(pickup.0 * time_per_floor >= to_src * time_per_floor) by (nonlinear_arith)
        requires
            pickup.0 >= to_src,
            time_per_floor > 0,
    ;
    assert(pos % time_per_floor >= 0) by (nonlinear_arith)
        requires
            time_per_floor > 0,
    ;
}

/// Estimated latency of elevator `j` for a person, given the directions of
/// the elevators.
pub open spec fn latency_of(building: &Building, person: &Person, dirs: Seq<bool>, j: int) -> int {
    spec_estimated_latency(
        building.nfloors(),
        building.time_per_floor as int,
        person.src as int,
        person.dest as int,
        building.elevators@[j].pos as int,
        dirs[j],
    )
}

/// A sweeping (elevator algorithm) policy: each elevator goes floor by floor
/// to the top and back down; requests go to the elevator that would deliver
/// the person soonest.
pub struct Scan {
    moving_up: Vec<bool>,
}

impl Scan {
    pub closed spec fn directions(&self) -> Seq<bool> {
        self.moving_up@
    }

    fn scan_distance_and_direction(num_floors: usize, from: usize, to: usize, moving_up: bool) -> (r: (
        u64,
        bool,
    ))
        requires
            1 <= num_floors <= MAX_FLOORS,
            from < num_floors,
            to < num_floors,
        ensures
            r.0 == scan_distance(num_floors as int, from as int, to as int, moving_up).0,
            r.1 == scan_distance(num_floors as int, from as int, to as int, moving_up).1,
            r.0 <= 2 * num_floors,
    {
        let top = num_floors - 1;
        if moving_up {
            if to >= from {
                ((to - from) as u64, moving_up)
            } else {
                ((top - from + top - to) as u64, !moving_up)
            }
        } else if to <= from {
            ((from - to) as u64, moving_up)
        } else {
            ((from + to) as u64, !moving_up)
        }
    }

    fn next_floor(floor: usize, target: usize, moving_up: bool) -> (r: usize)
        requires
            moving_up && target != floor ==> floor < usize::MAX,
            !moving_up && target != floor ==> floor > 0,
        ensures
            r == spec_next_floor(floor as int, target as int, moving_up),
    {
        if target == floor {
            floor
        } else if moving_up {
            floor + 1
        } else {
            floor - 1
        }
    }

    fn estimated_latency(building: &Building, person: &Person, pos: u64, moving_up: bool) -> (r: u64)
        requires
            building.wf(),
            building.time_per_floor > 0,
            building.nfloors() >= 1,
            pos <= building.max_pos(),
            person.src < building.nfloors(),
            person.dest < building.nfloors(),
        ensures
            r == spec_estimated_latency(
                building.nfloors(),
                building.time_per_floor as int,
                person.src as int,
                person.dest as int,
                pos as int,
                moving_up,
            ),
    {
        let num_floors = building.floors.len();
        let tpf = building.time_per_floor;
        proof {
            lemma_position_floor(pos as int, num_floors as int, tpf as int);
        }
        let current_floor = (pos / tpf) as usize;
        let (pickup_floors, pickup_direction) = Self::scan_distance_and_direction(
            num_floors,
            current_floor,
            person.src,
            moving_up,
        );
        proof {
            assert(pickup_floors * tpf <= 2 * MAX_FLOORS * MAX_TIME_PER_FLOOR) by (nonlinear_arith)
                requires
                    pickup_floors <= 2 * num_floors,
                    num_floors <= MAX_FLOORS,
                    tpf <= MAX_TIME_PER_FLOOR,
            ;
        }
        let a = pickup_floors * tpf;
        let offset = pos % tpf;
        let pickup_time = if a >= offset { a - offset } else { 0 };
        let (dropoff_floors, _) = Self::scan_distance_and_direction(
            num_floors,
            person.src,
            person.dest,
            pickup_direction,
        );
        proof {
            assert(dropoff_floors * tpf <= 2 * MAX_FLOORS * MAX_TIME_PER_FLOOR) by (nonlinear_arith)
                requires
                    dropoff_floors <= 2 * num_floors,
                    num_floors <= MAX_FLOORS,
                    tpf <= MAX_TIME_PER_FLOOR,
            ;
        }
        pickup_time + dropoff_floors * tpf
    }

    pub fn name(&self) -> (r: &'static str)
        ensures
            r@ == "Scan"@,
    {
        "Scan"
    }
}

impl Scan {
    /// A consistent policy keeps one direction per elevator.
    pub proof fn lemma_shape(&self, floors: int, elevators: int, now: int)
        requires
            self.inv(floors, elevators, now),
        ensures
            self.directions().len() == elevators,
    {
    }

}

impl Policy for Scan {
    /// A wait coming due changes nothing: this policy gives no wait
    /// commands.
    open spec fn wait_handled(&self, after: &Self, b: &Building, d0: &Decision, d1: &Decision, elevator: usize) -> bool {
        *after == *self && *d1 == *d0
    }

    fn waited(&mut self, _building: &Building, _decision: &mut Decision, _elevator: usize) {
    }

    /// What `request` does: the elevator that would deliver the person soonest
    /// (the first such); an idle one turns toward the person and heads for the
    /// next floor that way.
    open spec fn requested(&self, after: &Self, b: &Building, d0: &Decision, d1: &Decision, person: &Person, e: usize) -> bool {
        &&& forall|j: int|
            0 <= j < b.nelevators() ==> latency_of(b, person, self.directions(), e as int)
                <= #[trigger] latency_of(b, person, self.directions(), j)
        &&& forall|j: int|
            0 <= j < e ==> latency_of(b, person, self.directions(), e as int)
                < #[trigger] latency_of(b, person, self.directions(), j)
        &&& d1.waits@ == d0.waits@
        &&& ({
            let floor = b.elevators@[e as int].pos / b.time_per_floor;
            let up = person.src >= floor;
            if d0.dests@[e as int] is None {
                &&& after.directions() == self.directions().update(e as int, up)
                &&& d1.dests@ == d0.dests@.update(
                    e as int,
                    Some(spec_next_floor(floor as int, person.src as int, up) as usize),
                )
            } else {
                &&& after.directions() == self.directions()
                &&& d1.dests@ == d0.dests@
            }
        })
    }

    /// What `arrival` does: the elevator turns around at the top and ground
    /// floors and heads for the next floor in its direction.
    open spec fn arrived(&self, after: &Self, b: &Building, d0: &Decision, d1: &Decision, elevator: usize) -> bool {
        &&& ({
            let floor = b.elevators@[elevator as int].pos / b.time_per_floor;
            let up = if floor == b.nfloors() - 1 {
                false
            } else if floor == 0 {
                true
            } else {
                self.directions()[elevator as int]
            };
            &&& after.directions() == self.directions().update(elevator as int, up)
            &&& d1.waits@ == d0.waits@
            &&& d1.dests@ == d0.dests@.update(
                elevator as int,
                Some((if up { floor + 1 } else { floor - 1 }) as usize),
            )
        })
    }

    open spec fn supports(floors: int, elevators: int) -> bool {
        floors >= 2
    }

    closed spec fn inv(&self, floors: int, elevators: int, now: int) -> bool {
        floors >= 2 && self.moving_up@.len() == elevators
    }

    proof fn lemma_inv_later(&self, floors: int, elevators: int, t1: int, t2: int) {
    }

    proof fn lemma_inv_supports(&self, floors: int, elevators: int, now: int) {
    }

    /// Every elevator starts out moving up.
    fn new(building: &Building) -> (p: Self)
        ensures
            p.directions() == Seq::new(building.nelevators() as nat, |i: int| true),
    {
        let n = building.elevators.len();
        let mut moving_up: Vec<bool> = Vec::new();
        let mut i: usize = 0;
        while i < n
            invariant
                i <= n,
                moving_up@ == Seq::new(i as nat, |j: int| true),
            decreases n - i,
        {
            moving_up.push(true);
            proof {
                assert(moving_up@ =~= Seq::new((i + 1) as nat, |j: int| true));
            }
            i = i + 1;
        }
        Scan { moving_up }
    }

    /// The elevator turns around at the top and ground floors and heads for
    /// the next floor in its direction.
    fn arrival(&mut self, building: &Building, decision: &mut Decision, elevator: usize)
        ensures
            old(self).arrived(final(self), building, old(decision), final(decision), elevator),
    {
        proof {
            assert(building.elevator_ok(building.elevators@[elevator as int]));
            lemma_position_floor(
                building.elevators@[elevator as int].pos as int,
                building.nfloors(),
                building.time_per_floor as int,
            );
        }
        let floor = building.elevators[elevator].floor(building.time_per_floor);
        if floor == building.floors.len() - 1 {
            self.moving_up.set(elevator, false);
        } else if floor == 0 {
            self.moving_up.set(elevator, true);
        }
        let next = if self.moving_up[elevator] {
            floor + 1
        } else {
            floor - 1
        };
        decision.dests.set(elevator, Some(next));
        proof {
            let up = if floor == building.nfloors() - 1 {
                false
            } else if floor == 0 {
                true
            } else {
                old(self).directions()[elevator as int]
            };
            assert(self.directions() =~= old(self).directions().update(elevator as int, up));
        }
    }

    /// The elevator that would deliver the person soonest (the first such);
    /// if it is idle, it turns toward the person and heads for the next floor
    /// that way.
    fn request(&mut self, building: &Building, decision: &mut Decision, person: &Person) -> (e: usize)
        ensures
            old(self).requested(final(self), building, old(decision), final(decision), person, e),
    {
        let n = decision.dests.len();
        let ghost dirs = self.moving_up@;
        let mut best: usize = 0;
        let mut best_lat: u64 = 0;
        let mut i: usize = 0;
        while i < n
            invariant
                n == building.nelevators(),
                n == self.moving_up@.len(),
                n > 0,
                i <= n,
                building.runnable(),
                person.src < building.nfloors(),
                person.dest < building.nfloors(),
                best < n,
                i > 0 ==> best < i,
                i == 0 ==> best == 0,
                self.moving_up@ == dirs,
                i > 0 ==> best_lat == latency_of(building, person, dirs, best as int),
                forall|j: int| 0 <= j < i ==> best_lat <= #[trigger] latency_of(building, person, dirs, j),
                forall|j: int| 0 <= j < best ==> best_lat < #[trigger] latency_of(building, person, dirs, j),
            decreases n - i,
        {
            proof {
                assert(building.elevator_ok(building.elevators@[i as int]));
            }
            let l = Self::estimated_latency(building, person, building.elevators[i].pos, self.moving_up[i]);
            if i == 0 || l < best_lat {
                best = i;
                best_lat = l;
            }
            i = i + 1;
        }
        let elevator = best;
        if decision.dests[elevator].is_none() {
            proof {
                assert(building.elevator_ok(building.elevators@[elevator as int]));
                lemma_position_floor(
                    building.elevators@[elevator as int].pos as int,
                    building.nfloors(),
                    building.time_per_floor as int,
                );
            }
            let floor = building.elevators[elevator].floor(building.time_per_floor);
            let up = person.src >= floor;
            self.moving_up.set(elevator, up);
            let next = Self::next_floor(floor, person.src, up);
            decision.dests.set(elevator, Some(next));
        }
        elevator
    }
}

} // verus!
