use crate::building::{Building, Person};
use vstd::prelude::*;

verus! {

/// The commands a policy gives to the elevators.
#[derive(Debug, Clone)]
pub struct Decision {
    /// Wait commands: elevator `i` wants to be notified at time `waits[i]`.
    pub waits: Vec<u64>,
    /// Direction commands: the floor each elevator heads for, if any.
    pub dests: Vec<Option<usize>>,
}

impl Decision {
    pub fn new(elevators: usize) -> (d: Self)
        ensures
            d.waits@.len() == elevators,
            d.dests@.len() == elevators,
            forall|i: int| 0 <= i < elevators ==> #[trigger] d.waits@[i] == u64::MAX,
            forall|i: int| 0 <= i < elevators ==> #[trigger] d.dests@[i] is None,
    {
        let mut waits: Vec<u64> = Vec::new();
        let mut dests: Vec<Option<usize>> = Vec::new();
        let mut i: usize = 0;
        while i < elevators
            invariant
                i <= elevators,
                waits@.len() == i,
                dests@.len() == i,
                forall|j: int| 0 <= j < i ==> #[trigger] waits@[j] == u64::MAX,
                forall|j: int| 0 <= j < i ==> #[trigger] dests@[j] is None,
            decreases elevators - i,
        {
            waits.push(u64::MAX);
            dests.push(None);
            i = i + 1;
        }
        Decision { waits, dests }
    }

    /// One command of each kind per elevator, and every destination is a
    /// floor of the building.
    pub open spec fn fits(&self, b: &Building) -> bool {
        &&& self.waits@.len() == b.nelevators()
        &&& b.dests_ok(self.dests@)
    }

    /// No wait command lies before time `t`.
    pub open spec fn waits_from(&self, t: int) -> bool {
        forall|i: int| 0 <= i < self.waits@.len() ==> #[trigger] self.waits@[i] >= t
    }

    /// Each wait command is as in `before`, or comes at time `t` or later.
    pub open spec fn waits_set_from(&self, before: &Decision, t: int) -> bool {
        &&& self.waits@.len() == before.waits@.len()
        &&& forall|i: int|
            0 <= i < self.waits@.len() ==> #[trigger] self.waits@[i] == before.waits@[i] || self.waits@[i] >= t
    }

    /// No wait command was moved earlier than in `before`.
    pub open spec fn waits_no_earlier(&self, before: &Decision) -> bool {
        &&& self.waits@.len() == before.waits@.len()
        &&& forall|i: int| 0 <= i < self.waits@.len() ==> #[trigger] self.waits@[i] >= before.waits@[i]
    }
}

/// An elevator policy: it is told about requests and arrivals, assigns
/// elevators to incoming passengers and sets where the elevators go.
pub trait Policy: Sized {
    /// The building shapes (numbers of floors and of elevators) that the
    /// policy can control.
    spec fn supports(floors: int, elevators: int) -> bool;

    /// The policy's own state fits a building of this shape whose last
    /// event happened at time `now`.
    spec fn inv(&self, floors: int, elevators: int, now: int) -> bool;

    /// The policy's state stays consistent as time moves on.
    proof fn lemma_inv_later(&self, floors: int, elevators: int, t1: int, t2: int)
        requires
            self.inv(floors, elevators, t1),
            t1 <= t2,
        ensures
            self.inv(floors, elevators, t2),
    ;

    /// A consistent state implies that the shape is supported.
    proof fn lemma_inv_supports(&self, floors: int, elevators: int, now: int)
        requires
            self.inv(floors, elevators, now),
        ensures
            Self::supports(floors, elevators),
    ;

    /// `after` and `d1` are this policy and the commands `d0` once the policy
    /// has handled the request of `person` in building `b` and given it
    /// elevator `e`.
    spec fn requested(&self, after: &Self, b: &Building, d0: &Decision, d1: &Decision, person: &Person, e: usize) -> bool;

    /// `after` and `d1` are this policy and the commands `d0` once the policy
    /// has handled elevator `elevator` reaching its destination in `b`.
    spec fn arrived(&self, after: &Self, b: &Building, d0: &Decision, d1: &Decision, elevator: usize) -> bool;

    fn new(building: &Building) -> (p: Self)
        requires
            building.runnable(),
            Self::supports(building.nfloors(), building.nelevators()),
        ensures
            p.inv(building.nfloors(), building.nelevators(), building.prev_time as int),
    ;

    /// Notifies the policy that a person has requested to go to another
    /// floor; returns the elevator the person will wait for. The request
    /// comes at the person's request time, and a wait command the policy
    /// sets lies no earlier.
    fn request(&mut self, building: &Building, decision: &mut Decision, person: &Person) -> (e: usize)
        requires
            building.runnable(),
            old(self).inv(building.nfloors(), building.nelevators(), building.prev_time as int),
            old(decision).fits(building),
            person.src < building.nfloors(),
            person.dest < building.nfloors(),
            person.src != person.dest,
        ensures
            final(self).inv(building.nfloors(), building.nelevators(), building.prev_time as int),
            final(decision).fits(building),
            final(decision).waits_set_from(old(decision), person.req_time as int),
            e < building.nelevators(),
            old(self).requested(final(self), building, old(decision), final(decision), person, e),
    ;

    /// Notifies that an elevator has reached its destination.
    /// This is called after passengers have left and entered the elevator:
    /// the elevator stands at a floor and none of them is headed for it. It
    /// arrived one stop before it is free again, and a wait command the
    /// policy sets lies no earlier than its arrival.
    fn arrival(&mut self, building: &Building, decision: &mut Decision, elevator: usize)
        requires
            building.runnable(),
            old(self).inv(building.nfloors(), building.nelevators(), building.prev_time as int),
            old(decision).fits(building),
            elevator < building.nelevators(),
            building.elevators@[elevator as int].pos % building.time_per_floor == 0,
            forall|i: int|
                0 <= i < building.elevators@[elevator as int].passengers@.len() ==> (#[trigger] building.elevators@[
                    elevator as int].passengers@[i]).dest * building.time_per_floor
                    != building.elevators@[elevator as int].pos,
        ensures
            final(self).inv(building.nfloors(), building.nelevators(), building.prev_time as int),
            final(decision).fits(building),
            final(decision).waits_set_from(
                old(decision),
                building.elevators@[elevator as int].busy_until - building.time_per_stop,
            ),
            old(self).arrived(final(self), building, old(decision), final(decision), elevator),
    ;

    /// `after` and `d1` are this policy and the commands `d0` once the policy
    /// has handled the wait command of `elevator` coming due in `b`.
    spec fn wait_handled(&self, after: &Self, b: &Building, d0: &Decision, d1: &Decision, elevator: usize) -> bool;

    /// Notifies the policy that the time an elevator waited for has come.
    /// The call does not tell the time, so the policy moves no wait command
    /// earlier.
    fn waited(&mut self, building: &Building, decision: &mut Decision, elevator: usize)
        requires
            building.runnable(),
            old(self).inv(building.nfloors(), building.nelevators(), building.prev_time as int),
            old(decision).fits(building),
            elevator < building.nelevators(),
        ensures
            final(self).inv(building.nfloors(), building.nelevators(), building.prev_time as int),
            final(decision).fits(building),
            final(decision).waits_no_earlier(old(decision)),
            old(self).wait_handled(final(self), building, old(decision), final(decision), elevator),
    ;
}

} // verus!
