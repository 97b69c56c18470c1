use crate::building::{lemma_position_floor, Building, Person};
use crate::policy::{Decision, Policy};
use crate::rng::{rng_usize, rng_with_seed, seeded};
use vstd::prelude::*;

verus! {

/// Bogo sort, but for elevator scheduling: random elevators, random floors.
pub struct Bogo {
    rng: fastrand::Rng,
}

/// The floor that a draw below the number of floors less one stands for:
/// the floors other than `current`, in order.
pub open spec fn skip_floor(draw: int, current: int) -> int {
    if draw >= current { draw + 1 } else { draw }
}

impl Bogo {
    /// The random number generator that draws elevators and floors.
    pub closed spec fn generator(&self) -> fastrand::Rng {
        self.rng
    }

    /// The policy with its generator seeded with 69.
    pub fn default() -> (s: Self)
        ensures
            s.generator() == seeded(69),
    {
        Bogo { rng: rng_with_seed(69) }
    }

    /// The floor that `draw` stands for, skipping the current floor.
    pub fn other_floor(draw: usize, current: usize) -> (f: usize)
        requires
            draw < usize::MAX,
        ensures
            f == skip_floor(draw as int, current as int),
    {
        if draw >= current {
            draw + 1
        } else {
            draw
        }
    }
}

impl Policy for Bogo {
    /// A wait coming due changes nothing: this policy gives no wait
    /// commands.
    open spec fn wait_handled(&self, after: &Self, b: &Building, d0: &Decision, d1: &Decision, elevator: usize) -> bool {
        *after == *self && *d1 == *d0
    }

    fn waited(&mut self, _building: &Building, _decision: &mut Decision, _elevator: usize) {
    }

    /// What `request` does: the elevator is drawn at random; an idle one is
    /// sent to the floor with its own number.
    open spec fn requested(&self, after: &Self, b: &Building, d0: &Decision, d1: &Decision, person: &Person, e: usize) -> bool {
        &&& d1.waits@ == d0.waits@
        &&& d1.dests@ == if d0.dests@[e as int] is None {
            d0.dests@.update(e as int, Some(e))
        } else {
            d0.dests@
        }
    }

    /// What `arrival` does: the elevator heads for a random floor other than
    /// its current one.
    open spec fn arrived(&self, after: &Self, b: &Building, d0: &Decision, d1: &Decision, elevator: usize) -> bool {
        &&& d1.waits@ == d0.waits@
        &&& d1.dests@ =~= d0.dests@.update(
            elevator as int,
            d1.dests@[elevator as int],
        )
        &&& d1.dests@[elevator as int] is Some
        &&& exists|draw: int|
            0 <= draw < b.nfloors() - 1 && d1.dests@[elevator as int]->0 == #[trigger] skip_floor(
                draw,
                (b.elevators@[elevator as int].pos / b.time_per_floor) as int,
            )
        &&& d1.dests@[elevator as int]->0 != b.elevators@[elevator as int].pos
            / b.time_per_floor
        &&& d1.dests@[elevator as int]->0 < b.nfloors()
    }

    /// An idle elevator is sent to the floor numbered like the elevator, so
    /// there may be no more elevators than floors; arrivals pick another
    /// floor, so there are at least two.
    open spec fn supports(floors: int, elevators: int) -> bool {
        floors >= 2 && elevators <= floors
    }

    open spec fn inv(&self, floors: int, elevators: int, now: int) -> bool {
        floors >= 2 && elevators <= floors
    }

    proof fn lemma_inv_later(&self, floors: int, elevators: int, t1: int, t2: int) {
    }

    proof fn lemma_inv_supports(&self, floors: int, elevators: int, now: int) {
    }

    /// The policy with its generator seeded with 69.
    fn new(_building: &Building) -> (p: Self)
        ensures
            p.generator() == seeded(69),
    {
        Self::default()
    }

    /// A random elevator; an idle one is sent to the floor with its own
    /// number.
    fn request(&mut self, _building: &Building, decision: &mut Decision, _person: &Person) -> (e: usize)
        ensures
            old(self).requested(final(self), _building, old(decision), final(decision), _person, e),
    {
        let elevator = rng_usize(&mut self.rng, 0, decision.dests.len());
        if decision.dests[elevator].is_none() {
            decision.dests.set(elevator, Some(elevator));
        }
        elevator
    }

    /// The elevator heads for a random floor other than the current one.
    fn arrival(&mut self, building: &Building, decision: &mut Decision, elevator: usize)
        ensures
            old(self).arrived(final(self), building, old(decision), final(decision), elevator),
    {
        proof {
            assert(building.elevator_ok(building.elevators@[elevator as int]));
            lemma_position_floor(
                building.elevators@[elevator as int].pos as int,
                building.nfloors(),
                building.time_per_floor as int,
            );
        }
        let current = building.elevators[elevator].floor(building.time_per_floor);
        let num_floors = building.floors.len();
        let draw = rng_usize(&mut self.rng, 0, num_floors - 1);
        let next = Bogo::other_floor(draw, current);
        decision.dests.set(elevator, Some(next));
        proof {
            assert(skip_floor(draw as int, current as int) == next);
        }
    }
}

} // verus!
