use crate::building::{lemma_position_floor, Building, Person};
use crate::policies::gemini::{
    all_up, arrival_targets, floor_dist, lemma_floor_set_len, look, look_arrival, look_request,
    new_targets, pickup, targets_ok,
};
use crate::policy::{Decision, Policy};
use std::collections::BTreeSet;
use vstd::prelude::*;

verus! {

broadcast use {vstd::std_specs::btree::group_btree_axioms, vstd::laws_cmp::group_laws_cmp};

/// Gemini2's estimated cost of sending elevator `i` to pick up a person at
/// `src`, given how many targets it has: the distance in floors (through
/// its current destination if that lies the other way), four per passenger
/// or target already committed, and a large penalty if it is full.
pub open spec fn gemini2_cost(b: &Building, dests: Seq<Option<usize>>, targets: int, src: int, i: int) -> int {
    let e = b.elevators@[i];
    let cur = (e.pos / b.time_per_floor) as int;
    let dist = floor_dist(cur, src);
    let cost = match dests[i] {
        None => dist,
        Some(d) => {
            let heading_up = d > cur;
            let person_above = src >= cur;
            if heading_up == person_above {
                dist
            } else {
                floor_dist(cur, d as int) + floor_dist(d as int, src)
            }
        },
    };
    let stop_penalty = (e.passengers@.len() + targets) * 4;
    let capacity_penalty = if e.passengers@.len() >= e.capacity { 1000int } else { 0int };
    cost + stop_penalty + capacity_penalty
}

/// Gemini2's cost of an elevator covers its trip to the person: its
/// distance in floors when idle or heading toward the person, and the way
/// through its current destination when that lies the other way; plus four
/// per passenger or target, and more when it is full.
pub proof fn lemma_gemini2_cost(b: &Building, dests: Seq<Option<usize>>, targets: int, src: int, i: int)
    requires
        targets >= 0,
    ensures
        ({
            let e = b.elevators@[i];
            let cur = (e.pos / b.time_per_floor) as int;
            let dist = if cur >= src { cur - src } else { src - cur };
            let penalties = (e.passengers@.len() + targets) * 4;
            let cost = gemini2_cost(b, dests, targets, src, i);
            &&& cost >= dist + penalties
            &&& (dests[i] is Some && dests[i]->0 > cur && src < cur) ==> cost >= (dests[i]->0 - cur) + (
            dests[i]->0 - src) + penalties
            &&& (dests[i] is Some && dests[i]->0 < cur && src > cur) ==> cost >= (cur - dests[i]->0) + (src
                - dests[i]->0) + penalties
            &&& (dests[i] is None || ((dests[i]->0 > cur) == (src >= cur))) ==> cost == dist + penalties + (if e.passengers@.len()
                >= e.capacity { 1000int } else { 0int })
            &&& e.passengers@.len() >= e.capacity ==> cost >= dist + penalties + 1000
        }),
{
}

/// An ETA-based LOOK policy: arrivals follow the LOOK rule; requests go to
/// the elevator with the lowest estimated cost.
pub struct Gemini2 {
    targets: Vec<BTreeSet<usize>>,
    moving_up: Vec<bool>,
}

impl Gemini2 {
    pub closed spec fn target_sets(&self) -> Seq<Set<usize>> {
        self.targets@.map_values(|t: BTreeSet<usize>| t@)
    }

    pub closed spec fn directions(&self) -> Seq<bool> {
        self.moving_up@
    }

    pub fn name(&self) -> (r: &'static str)
        ensures
            r@ == "Gemini2"@,
    {
        "Gemini2"
    }
}

impl Gemini2 {
    /// A consistent policy keeps one target set and one direction per
    /// elevator.
    pub proof fn lemma_shape(&self, floors: int, elevators: int, now: int)
        requires
            self.inv(floors, elevators, now),
        ensures
            self.target_sets().len() == elevators,
            self.directions().len() == elevators,
    {
    }

}

impl Policy for Gemini2 {
    /// A wait coming due changes nothing: this policy gives no wait
    /// commands.
    open spec fn wait_handled(&self, after: &Self, b: &Building, d0: &Decision, d1: &Decision, elevator: usize) -> bool {
        *after == *self && *d1 == *d0
    }

    fn waited(&mut self, _building: &Building, _decision: &mut Decision, _elevator: usize) {
    }

    /// What `request` does: the elevator with the lowest cost (the first such)
    /// gets the person, whose floor becomes one of its targets.
    open spec fn requested(&self, after: &Self, b: &Building, d0: &Decision, d1: &Decision, person: &Person, e: usize) -> bool {
        &&& forall|j: int|
            0 <= j < b.nelevators() ==> gemini2_cost(
                b,
                d0.dests@,
                self.target_sets()[e as int].len() as int,
                person.src as int,
                e as int,
            ) <= #[trigger] gemini2_cost(
                b,
                d0.dests@,
                self.target_sets()[j].len() as int,
                person.src as int,
                j,
            )
        &&& forall|j: int|
            0 <= j < e ==> gemini2_cost(
                b,
                d0.dests@,
                self.target_sets()[e as int].len() as int,
                person.src as int,
                e as int,
            ) < #[trigger] gemini2_cost(
                b,
                d0.dests@,
                self.target_sets()[j].len() as int,
                person.src as int,
                j,
            )
        &&& ({
            let floor = (b.elevators@[e as int].pos / b.time_per_floor) as int;
            let (dest, up) = pickup(
                d0.dests@[e as int],
                self.directions()[e as int],
                floor,
                person.src,
            );
            &&& after.target_sets() == self.target_sets().update(
                e as int,
                self.target_sets()[e as int].insert(person.src),
            )
            &&& after.directions() == self.directions().update(e as int, up)
            &&& d1.dests@ == d0.dests@.update(e as int, dest)
            &&& d1.waits@ == d0.waits@
        })
    }

    /// What `arrival` does: the LOOK rule picks the next target.
    open spec fn arrived(&self, after: &Self, b: &Building, d0: &Decision, d1: &Decision, elevator: usize) -> bool {
        &&& ({
            let floor = (b.elevators@[elevator as int].pos / b.time_per_floor) as int;
            let s = arrival_targets(
                self.target_sets()[elevator as int],
                floor,
                b.elevators@[elevator as int].passengers@,
            );
            let (dest, up) = look(s, floor, self.directions()[elevator as int]);
            &&& after.target_sets() == self.target_sets().update(elevator as int, s)
            &&& after.directions() == self.directions().update(elevator as int, up)
            &&& d1.dests@ == d0.dests@.update(elevator as int, dest)
            &&& d1.waits@ == d0.waits@
        })
    }

    open spec fn supports(floors: int, elevators: int) -> bool {
        floors >= 1
    }

    closed spec fn inv(&self, floors: int, elevators: int, now: int) -> bool {
        &&& floors >= 1
        &&& self.targets@.len() == elevators
        &&& self.moving_up@.len() == elevators
        &&& targets_ok(self.targets@, floors)
    }

    proof fn lemma_inv_later(&self, floors: int, elevators: int, t1: int, t2: int) {
    }

    proof fn lemma_inv_supports(&self, floors: int, elevators: int, now: int) {
    }

    /// No targets; every elevator starts moving up.
    fn new(building: &Building) -> (p: Self)
        ensures
            p.target_sets() == Seq::new(building.nelevators() as nat, |i: int| Set::<usize>::empty()),
            p.directions() == Seq::new(building.nelevators() as nat, |i: int| true),
    {
        let n = building.elevators.len();
        let p = Gemini2 { targets: new_targets(n), moving_up: all_up(n) };
        proof {
            assert(p.target_sets() =~= Seq::new(n as nat, |i: int| Set::<usize>::empty()));
        }
        p
    }

    /// The LOOK rule picks the next target.
    fn arrival(&mut self, building: &Building, decision: &mut Decision, elevator: usize)
        ensures
            old(self).arrived(final(self), building, old(decision), final(decision), elevator),
    {
        look_arrival(&mut self.targets, &mut self.moving_up, building, decision, elevator);
        proof {
            let floor = (building.elevators@[elevator as int].pos / building.time_per_floor) as int;
            let s = arrival_targets(
                old(self).target_sets()[elevator as int],
                floor,
                building.elevators@[elevator as int].passengers@,
            );
            assert(self.target_sets() =~= old(self).target_sets().update(elevator as int, s));
        }
    }

    /// The elevator with the lowest cost (the first such) gets the person.
    fn request(&mut self, building: &Building, decision: &mut Decision, person: &Person) -> (e: usize)
        ensures
            old(self).requested(final(self), building, old(decision), final(decision), person, e),
    {
        let n = building.elevators.len();
        let ghost dests = decision.dests@;
        let ghost sets = self.target_sets();
        let mut best: usize = 0;
        let mut best_cost: u64 = 0;
        let mut i: usize = 0;
        while i < n
            invariant
                n == building.nelevators(),
                n > 0,
                i <= n,
                building.runnable(),
                building.nfloors() >= 1,
                decision.dests@ == dests,
                decision.fits(building),
                self.targets@.len() == n,
                sets == self.target_sets(),
                targets_ok(self.targets@, building.nfloors()),
                person.src < building.nfloors(),
                best < n,
                i > 0 ==> best < i,
                i == 0 ==> best == 0,
                i > 0 ==> best_cost == gemini2_cost(
                    building,
                    dests,
                    sets[best as int].len() as int,
                    person.src as int,
                    best as int,
                ),
                forall|j: int|
                    0 <= j < i ==> best_cost <= #[trigger] gemini2_cost(
                        building,
                        dests,
                        sets[j].len() as int,
                        person.src as int,
                        j,
                    ),
                forall|j: int|
                    0 <= j < best ==> best_cost < #[trigger] gemini2_cost(
                        building,
                        dests,
                        sets[j].len() as int,
                        person.src as int,
                        j,
                    ),
            decreases n - i,
        {
            proof {
                assert(building.elevator_ok(building.elevators@[i as int]));
                lemma_position_floor(
                    building.elevators@[i as int].pos as int,
                    building.nfloors(),
                    building.time_per_floor as int,
                );
                lemma_floor_set_len(self.targets@[i as int]@, building.nfloors());
                assert(sets[i as int] == self.targets@[i as int]@);
            }
            let e = &building.elevators[i];
            let current_floor = e.floor(building.time_per_floor);
            let target_floor = person.src;
            let dist = if current_floor >= target_floor {
                current_floor - target_floor
            } else {
                target_floor - current_floor
            };
            let cost: usize = match decision.dests[i] {
                None => dist,
                Some(d) => {
                    let heading_up = d > current_floor;
                    let person_above = target_floor >= current_floor;
                    if heading_up == person_above {
                        dist
                    } else {
                        let dist_to_dest = if current_floor >= d { current_floor - d } else { d - current_floor };
                        let dist_from_dest_to_person = if d >= target_floor { d - target_floor } else { target_floor - d };
                        dist_to_dest + dist_from_dest_to_person
                    }
                },
            };
            let stop_penalty = (e.passengers.len() as u64 + self.targets[i].len() as u64) * 4;
            let capacity_penalty: u64 = if e.passengers.len() >= e.capacity { 1000 } else { 0 };
            let total = cost as u64 + stop_penalty + capacity_penalty;
            if i == 0 || total < best_cost {
                best = i;
                best_cost = total;
            }
            i = i + 1;
        }
        look_request(&mut self.targets, &mut self.moving_up, building, decision, person, best);
        proof {
            assert(self.target_sets() =~= old(self).target_sets().update(
                best as int,
                old(self).target_sets()[best as int].insert(person.src),
            ));
        }
        best
    }
}

} // verus!
