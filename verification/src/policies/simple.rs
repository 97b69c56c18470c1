use crate::building::{lemma_position_floor, Building, Person};
use crate::policy::{Decision, Policy};
use crate::rng::{rng_usize, rng_with_seed, seeded};
use vstd::prelude::*;

verus! {

/// Sends each elevator one floor up on every arrival, wrapping around to
/// the ground floor; assigns requests to random elevators.
pub struct Simple {
    rng: fastrand::Rng,
}

impl Simple {
    /// The random number generator that draws elevators and floors.
    pub closed spec fn generator(&self) -> fastrand::Rng {
        self.rng
    }

    /// The policy with its generator seeded with 2453.
    pub fn default() -> (s: Self)
        ensures
            s.generator() == seeded(2453),
    {
        Simple { rng: rng_with_seed(2453) }
    }
}

impl Policy for Simple {
    /// A wait coming due changes nothing: this policy gives no wait
    /// commands.
    open spec fn wait_handled(&self, after: &Self, b: &Building, d0: &Decision, d1: &Decision, elevator: usize) -> bool {
        *after == *self && *d1 == *d0
    }

    fn waited(&mut self, _building: &Building, _decision: &mut Decision, _elevator: usize) {
    }

    /// What `request` does: the elevator is drawn at random; an idle one is
    /// sent to the ground floor.
    open spec fn requested(&self, after: &Self, b: &Building, d0: &Decision, d1: &Decision, person: &Person, e: usize) -> bool {
        &&& d1.waits@ == d0.waits@
        &&& d1.dests@ == if d0.dests@[e as int] is None {
            d0.dests@.update(e as int, Some(0usize))
        } else {
            d0.dests@
        }
    }

    /// What `arrival` does: the elevator heads for the next floor up, or the
    /// ground floor from the top.
    open spec fn arrived(&self, after: &Self, b: &Building, d0: &Decision, d1: &Decision, elevator: usize) -> bool {
        &&& d1.waits@ == d0.waits@
        &&& d1.dests@ == d0.dests@.update(
            elevator as int,
            Some(
                ((b.elevators@[elevator as int].pos / b.time_per_floor + 1)
                    % b.nfloors()) as usize,
            ),
        )
    }

    open spec fn supports(floors: int, elevators: int) -> bool {
        floors >= 1
    }

    open spec fn inv(&self, floors: int, elevators: int, now: int) -> bool {
        floors >= 1
    }

    proof fn lemma_inv_later(&self, floors: int, elevators: int, t1: int, t2: int) {
    }

    proof fn lemma_inv_supports(&self, floors: int, elevators: int, now: int) {
    }

    /// The policy with its generator seeded with 2453.
    fn new(_building: &Building) -> (p: Self)
        ensures
            p.generator() == seeded(2453),
    {
        Self::default()
    }

    /// The elevator heads for the next floor up, or the ground floor from
    /// the top.
    fn arrival(&mut self, building: &Building, decision: &mut Decision, elevator: usize)
        ensures
            old(self).arrived(final(self), building, old(decision), final(decision), elevator),
    {
        proof {
            assert(building.elevator_ok(building.elevators@[elevator as int]));
            lemma_position_floor(
                building.elevators@[elevator as int].pos as int,
                building.nfloors(),
                building.time_per_floor as int,
            );
        }
        let floor = building.elevators[elevator].floor(building.time_per_floor);
        decision.dests.set(elevator, Some((floor + 1) % building.floors.len()));
    }

    /// A random elevator; an idle one is sent to the ground floor.
    fn request(&mut self, _building: &Building, decision: &mut Decision, _person: &Person) -> (e: usize)
        ensures
            old(self).requested(final(self), _building, old(decision), final(decision), _person, e),
    {
        let elevator = rng_usize(&mut self.rng, 0, decision.dests.len());
        if decision.dests[elevator].is_none() {
            decision.dests.set(elevator, Some(0));
        }
        elevator
    }
}

} // verus!
