use crate::building::{lemma_position_floor, Building, Person, MAX_FLOORS};
use crate::policy::{Decision, Policy};
use std::collections::BTreeSet;
use vstd::prelude::*;
use vstd::set_lib::{lemma_int_range, lemma_len_subset, lemma_map_size_bound, set_int_range};
use vstd::std_specs::iter::IteratorSpec;

verus! {

broadcast use {vstd::std_specs::btree::group_btree_axioms, vstd::laws_cmp::group_laws_cmp};

/// `t` is the lowest member of `s` above `f`.
pub open spec fn is_lowest_above(s: Set<usize>, f: int, t: usize) -> bool {
    &&& s.contains(t)
    &&& t > f
    &&& forall|u: usize| #[trigger] s.contains(u) && u > f ==> t <= u
}

/// `t` is the highest member of `s` below `f`.
pub open spec fn is_highest_below(s: Set<usize>, f: int, t: usize) -> bool {
    &&& s.contains(t)
    &&& t < f
    &&& forall|u: usize| #[trigger] s.contains(u) && u < f ==> u <= t
}

/// The lowest member of `s` above `f`, if any.
pub open spec fn lowest_above(s: Set<usize>, f: int) -> Option<usize> {
    if exists|t: usize| is_lowest_above(s, f, t) {
        Some(choose|t: usize| is_lowest_above(s, f, t))
    } else {
        None
    }
}

/// The highest member of `s` below `f`, if any.
pub open spec fn highest_below(s: Set<usize>, f: int) -> Option<usize> {
    if exists|t: usize| is_highest_below(s, f, t) {
        Some(choose|t: usize| is_highest_below(s, f, t))
    } else {
        None
    }
}

/// The LOOK rule: keep going in the current direction while there are
/// targets that way, else turn to the nearest target the other way. Gives
/// the next destination (none when there is no target) and the direction.
pub open spec fn look(s: Set<usize>, floor: int, up: bool) -> (Option<usize>, bool) {
    let above = lowest_above(s, floor);
    let below = highest_below(s, floor);
    if up {
        if above is Some {
            (above, true)
        } else if below is Some {
            (below, false)
        } else {
            (None, true)
        }
    } else {
        if below is Some {
            (below, false)
        } else if above is Some {
            (above, true)
        } else {
            (None, false)
        }
    }
}

/// A target above `f` means there is a lowest one above `f`.
proof fn lemma_lowest_above_exists(s: Set<usize>, f: int, t: usize)
    requires
        s.contains(t),
        t > f,
    ensures
        exists|u: usize| is_lowest_above(s, f, u),
    decreases t - f,
{
    if exists|u: usize| #[trigger] s.contains(u) && f < u < t {
        let u = choose|u: usize| #[trigger] s.contains(u) && f < u < t;
        lemma_lowest_above_exists(s, f, u);
    } else {
        assert(is_lowest_above(s, f, t));
    }
}

/// A target below `f` means there is a highest one below `f`.
proof fn lemma_highest_below_exists(s: Set<usize>, f: int, t: usize)
    requires
        s.contains(t),
        t < f,
    ensures
        exists|u: usize| is_highest_below(s, f, u),
    decreases f - t,
{
    if exists|u: usize| #[trigger] s.contains(u) && t < u < f {
        let u = choose|u: usize| #[trigger] s.contains(u) && t < u < f;
        lemma_highest_below_exists(s, f, u);
    } else {
        assert(is_highest_below(s, f, t));
    }
}

/// The LOOK rule gives a destination whenever there is a target other than
/// the current floor, and only then; the destination is a target, and the
/// direction is the way to it. It keeps the direction while there is a
/// target that way, and goes to the nearest target in the direction it
/// takes.
pub proof fn lemma_look(s: Set<usize>, floor: int, up: bool)
    ensures
        look(s, floor, up).0 is None <==> forall|t: usize| #[trigger] s.contains(t) ==> t == floor,
        look(s, floor, up).0 matches Some(t) ==> {
            &&& s.contains(t)
            &&& t != floor
            &&& look(s, floor, up).1 == (t > floor)
            &&& forall|u: usize| #[trigger] s.contains(u) && u != floor && (u > floor) == (t > floor) ==> floor_dist(floor, t as int) <= floor_dist(floor, u as int)
        },
        (exists|t: usize| #[trigger] s.contains(t) && t > floor && up) ==> look(s, floor, up).1,
        (exists|t: usize| #[trigger] s.contains(t) && t < floor && !up) ==> !look(s, floor, up).1,
{
    assert forall|t: usize| #[trigger] s.contains(t) && t != floor implies look(s, floor, up).0 is Some by {
        if t > floor {
            lemma_lowest_above_exists(s, floor, t);
        } else {
            lemma_highest_below_exists(s, floor, t);
        }
    }
    if exists|t: usize| #[trigger] s.contains(t) && t > floor {
        let t = choose|t: usize| #[trigger] s.contains(t) && t > floor;
        lemma_lowest_above_exists(s, floor, t);
    }
    if exists|t: usize| #[trigger] s.contains(t) && t < floor {
        let t = choose|t: usize| #[trigger] s.contains(t) && t < floor;
        lemma_highest_below_exists(s, floor, t);
    }
}

/// The floors that the passengers are heading for.
pub open spec fn dest_set(ps: Seq<Person>) -> Set<usize> {
    Set::new(|d: usize| exists|j: int| 0 <= j < ps.len() && (#[trigger] ps[j]).dest == d)
}

/// A set of floors below `f` is finite and has at most `f` members.
pub proof fn lemma_floor_set_len(s: Set<usize>, f: int)
    requires
        0 <= f,
        forall|t: usize| #[trigger] s.contains(t) ==> t < f,
    ensures
        s.finite(),
        s.len() <= f,
{
    lemma_int_range(0, f);
    let g = |i: int| i as usize;
    let r = set_int_range(0, f).map(g);
    lemma_map_size_bound(set_int_range(0, f), r, g);
    assert forall|t: usize| s.contains(t) implies r.contains(t) by {
        assert(set_int_range(0, f).contains(t as int));
        assert(g(t as int) == t);
    }
    lemma_len_subset(s, r);
}

/// The lowest member of `s` above `f`.
fn min_above(s: &BTreeSet<usize>, f: usize) -> (r: Option<usize>)
    ensures
        r == lowest_above(s@, f as int),
{
    let mut best: Option<usize> = None;
    let iter = s.iter();
    let ghost sq = iter.remaining();
    let ghost mut count: int = 0;
    proof {
        assert(sq.unref().to_set() == s@);
    }
    for x in it: iter
        invariant
            it.seq() == sq,
            it.index() == count,
            sq.unref().to_set() == s@,
            best matches Some(b) ==> s@.contains(b) && b > f && forall|k: int|
                0 <= k < it.index() && *it.seq()[k] > f ==> b <= *it.seq()[k],
            best is None ==> forall|k: int| 0 <= k < it.index() ==> *it.seq()[k] <= f,
    {
        let v = *x;
        if v > f {
            match best {
                Some(b) => if v < b {
                    best = Some(v);
                },
                None => {
                    best = Some(v);
                },
            }
        }
        proof {
            count = count + 1;
        }
    }
    proof {
        assert(count == sq.len());
        assert forall|u: usize| s@.contains(u) implies exists|k: int| 0 <= k < sq.len() && *sq[k] == u by {
            assert(sq.unref().to_set().contains(u));
            let k = choose|k: int| 0 <= k < sq.unref().len() && sq.unref()[k] == u;
        }
        match best {
            Some(b) => {
                assert(is_lowest_above(s@, f as int, b)) by {
                    assert forall|u: usize| #[trigger] s@.contains(u) && u > f implies b <= u by {
                        let k = choose|k: int| 0 <= k < sq.len() && *sq[k] == u;
                    }
                }
                let c = choose|t: usize| is_lowest_above(s@, f as int, t);
                assert(c == b);
            },
            None => {
                assert forall|t: usize| !is_lowest_above(s@, f as int, t) by {
                    if s@.contains(t) {
                        let k = choose|k: int| 0 <= k < sq.len() && *sq[k] == t;
                    }
                }
            },
        }
    }
    best
}

/// The highest member of `s` below `f`.
fn max_below(s: &BTreeSet<usize>, f: usize) -> (r: Option<usize>)
    ensures
        r == highest_below(s@, f as int),
{
    let mut best: Option<usize> = None;
    let iter = s.iter();
    let ghost sq = iter.remaining();
    let ghost mut count: int = 0;
    proof {
        assert(sq.unref().to_set() == s@);
    }
    for x in it: iter
        invariant
            it.seq() == sq,
            it.index() == count,
            sq.unref().to_set() == s@,
            best matches Some(b) ==> s@.contains(b) && b < f && forall|k: int|
                0 <= k < it.index() && *it.seq()[k] < f ==> *it.seq()[k] <= b,
            best is None ==> forall|k: int| 0 <= k < it.index() ==> *it.seq()[k] >= f,
    {
        let v = *x;
        if v < f {
            match best {
                Some(b) => if v > b {
                    best = Some(v);
                },
                None => {
                    best = Some(v);
                },
            }
        }
        proof {
            count = count + 1;
        }
    }
    proof {
        assert(count == sq.len());
        assert forall|u: usize| s@.contains(u) implies exists|k: int| 0 <= k < sq.len() && *sq[k] == u by {
            assert(sq.unref().to_set().contains(u));
            let k = choose|k: int| 0 <= k < sq.unref().len() && sq.unref()[k] == u;
        }
        match best {
            Some(b) => {
                assert(is_highest_below(s@, f as int, b)) by {
                    assert forall|u: usize| #[trigger] s@.contains(u) && u < f implies u <= b by {
                        let k = choose|k: int| 0 <= k < sq.len() && *sq[k] == u;
                    }
                }
                let c = choose|t: usize| is_highest_below(s@, f as int, t);
                assert(c == b);
            },
            None => {
                assert forall|t: usize| !is_highest_below(s@, f as int, t) by {
                    if s@.contains(t) {
                        let k = choose|k: int| 0 <= k < sq.len() && *sq[k] == t;
                    }
                }
            },
        }
    }
    best
}


/// The LOOK state of one elevator after it arrives at `floor`: the floor is
/// no longer a target, the passengers' destinations are.
pub open spec fn arrival_targets(s: Set<usize>, floor: int, passengers: Seq<Person>) -> Set<usize> {
    s.remove(floor as usize).union(dest_set(passengers))
}

/// Every target of every elevator is a floor of the building.
pub open spec fn targets_ok(targets: Seq<BTreeSet<usize>>, floors: int) -> bool {
    forall|i: int, t: usize| 0 <= i < targets.len() && #[trigger] targets[i]@.contains(t) ==> t < floors
}

/// Empty target sets, one per elevator.
pub(crate) fn new_targets(n: usize) -> (r: Vec<BTreeSet<usize>>)
    ensures
        r@.len() == n,
        forall|i: int| 0 <= i < n ==> (#[trigger] r@[i])@ == Set::<usize>::empty(),
{
    let mut r: Vec<BTreeSet<usize>> = Vec::new();
    let mut i: usize = 0;
    while i < n
        invariant
            i <= n,
            r@.len() == i,
            forall|j: int| 0 <= j < i ==> (#[trigger] r@[j])@ == Set::<usize>::empty(),
        decreases n - i,
    {
        r.push(BTreeSet::new());
        i = i + 1;
    }
    r
}

/// Every elevator starts moving up.
pub(crate) fn all_up(n: usize) -> (r: Vec<bool>)
    ensures
        r@ == Seq::new(n as nat, |i: int| true),
{
    let mut r: Vec<bool> = Vec::new();
    let mut i: usize = 0;
    while i < n
        invariant
            i <= n,
            r@ == Seq::new(i as nat, |j: int| true),
        decreases n - i,
    {
        r.push(true);
        proof {
            assert(r@ =~= Seq::new((i + 1) as nat, |j: int| true));
        }
        i = i + 1;
    }
    r
}

/// On arrival, a LOOK policy forgets the current floor as a target, adds
/// the passengers' destinations, and picks the next target by the LOOK rule.
pub(crate) fn look_arrival(
    targets: &mut Vec<BTreeSet<usize>>,
    moving_up: &mut Vec<bool>,
    building: &Building,
    decision: &mut Decision,
    elevator: usize,
)
    requires
        building.runnable(),
        building.nfloors() >= 1,
        elevator < building.nelevators(),
        old(targets)@.len() == building.nelevators(),
        old(moving_up)@.len() == building.nelevators(),
        targets_ok(old(targets)@, building.nfloors()),
        old(decision).fits(building),
    ensures
        ({
            let floor = (building.elevators@[elevator as int].pos / building.time_per_floor) as int;
            let s = arrival_targets(
                old(targets)@[elevator as int]@,
                floor,
                building.elevators@[elevator as int].passengers@,
            );
            let (dest, up) = look(s, floor, old(moving_up)@[elevator as int]);
            &&& final(targets)@.len() == old(targets)@.len()
            &&& final(targets)@[elevator as int]@ == s
            &&& forall|j: int|
                0 <= j < old(targets)@.len() && j != elevator ==> #[trigger] final(targets)@[j] == old(targets)@[j]
            &&& final(moving_up)@ == old(moving_up)@.update(elevator as int, up)
            &&& final(decision).dests@ == old(decision).dests@.update(elevator as int, dest)
            &&& final(decision).waits@ == old(decision).waits@
        }),
        targets_ok(final(targets)@, building.nfloors()),
        final(decision).fits(building),
{
    proof {
        assert(building.elevator_ok(building.elevators@[elevator as int]));
        lemma_position_floor(
            building.elevators@[elevator as int].pos as int,
            building.nfloors(),
            building.time_per_floor as int,
        );
    }
    let e = &building.elevators[elevator];
    let floor = e.floor(building.time_per_floor);
    let ghost t0 = targets@;
    targets[elevator].remove(&floor);
    let ghost s1 = t0[elevator as int]@.remove(floor);
    assert(targets@[elevator as int]@ == s1);
    let ps = &e.passengers;
    let n = ps.len();
    let mut i: usize = 0;
    while i < n
        invariant
            i <= n,
            n == ps@.len(),
            elevator < t0.len(),
            targets@.len() == t0.len(),
            forall|j: int| 0 <= j < t0.len() && j != elevator ==> #[trigger] targets@[j] == t0[j],
            targets@[elevator as int]@ == s1.union(dest_set(ps@.take(i as int))),
        decreases n - i,
    {
        let d = ps[i].dest;
        targets[elevator].insert(d);
        proof {
            assert(targets@[elevator as int]@ =~= s1.union(dest_set(ps@.take(i + 1)))) by {
                assert forall|x: usize| dest_set(ps@.take(i + 1)).contains(x) <==> dest_set(ps@.take(i as int)).contains(x) || x == d by {
                    if dest_set(ps@.take(i + 1)).contains(x) {
                        let j = choose|j: int| 0 <= j < i + 1 && (#[trigger] ps@.take(i + 1)[j]).dest == x;
                        if j < i {
                            assert(ps@.take(i as int)[j] == ps@.take(i + 1)[j]);
                        }
                    }
                    if x == d {
                        assert(ps@.take(i + 1)[i as int].dest == x);
                    }
                    if dest_set(ps@.take(i as int)).contains(x) {
                        let j = choose|j: int| 0 <= j < i && (#[trigger] ps@.take(i as int)[j]).dest == x;
                        assert(ps@.take(i + 1)[j] == ps@.take(i as int)[j]);
                    }
                }
            }
        }
        i = i + 1;
    }
    proof {
        assert(ps@.take(n as int) =~= ps@);
        assert forall|j: int, t: usize| 0 <= j < targets@.len() && #[trigger] targets@[j]@.contains(t) implies t < building.nfloors() by {
            if j == elevator {
                if dest_set(ps@).contains(t) {
                    let k = choose|k: int| 0 <= k < ps@.len() && (#[trigger] ps@[k]).dest == t;
                    assert(building.person_fits(ps@[k]));
                } else {
                    assert(t0[j]@.contains(t));
                }
            }
        }
    }
    let above = min_above(&targets[elevator], floor);
    let below = max_below(&targets[elevator], floor);
    proof {
        let s = targets@[elevator as int]@;
        if above is Some {
            let c = choose|t: usize| is_lowest_above(s, floor as int, t);
            assert(s.contains(c));
        }
        if below is Some {
            let c = choose|t: usize| is_highest_below(s, floor as int, t);
            assert(s.contains(c));
        }
    }
    if moving_up[elevator] {
        if let Some(target) = above {
            decision.dests.set(elevator, Some(target));
        } else if let Some(target) = below {
            moving_up.set(elevator, false);
            decision.dests.set(elevator, Some(target));
        } else {
            decision.dests.set(elevator, None);
        }
    } else {
        if let Some(target) = below {
            decision.dests.set(elevator, Some(target));
        } else if let Some(target) = above {
            moving_up.set(elevator, true);
            decision.dests.set(elevator, Some(target));
        } else {
            decision.dests.set(elevator, None);
        }
    }
    proof {
        assert(moving_up@ =~= old(moving_up)@.update(elevator as int, look(targets@[elevator as int]@, floor as int, old(moving_up)@[elevator as int]).1));
    }
}


/// Where an elevator heading for `dest` (if anywhere) and moving up or down
/// goes after a person asks to be picked up at `src` while it is at
/// `floor`: an idle elevator turns toward the person and heads there; a
/// moving one stops for the person first if they lie strictly between it and
/// its target in its direction of travel.
pub open spec fn pickup(dest: Option<usize>, up: bool, floor: int, src: usize) -> (Option<usize>, bool) {
    match dest {
        None => (Some(src), src >= floor),
        Some(curr) => if (up && src > floor && src < curr) || (!up && src < floor && src > curr) {
            (Some(src), up)
        } else {
            (dest, up)
        },
    }
}

/// Records the person's floor as a target of the chosen elevator and
/// updates its destination by the pickup rule.
pub(crate) fn look_request(
    targets: &mut Vec<BTreeSet<usize>>,
    moving_up: &mut Vec<bool>,
    building: &Building,
    decision: &mut Decision,
    person: &Person,
    elevator: usize,
)
    requires
        building.runnable(),
        building.nfloors() >= 1,
        elevator < building.nelevators(),
        old(targets)@.len() == building.nelevators(),
        old(moving_up)@.len() == building.nelevators(),
        targets_ok(old(targets)@, building.nfloors()),
        old(decision).fits(building),
        person.src < building.nfloors(),
    ensures
        ({
            let floor = (building.elevators@[elevator as int].pos / building.time_per_floor) as int;
            let (dest, up) = pickup(
                old(decision).dests@[elevator as int],
                old(moving_up)@[elevator as int],
                floor,
                person.src,
            );
            &&& final(targets)@.len() == old(targets)@.len()
            &&& final(targets)@[elevator as int]@ == old(targets)@[elevator as int]@.insert(person.src)
            &&& forall|j: int|
                0 <= j < old(targets)@.len() && j != elevator ==> #[trigger] final(targets)@[j] == old(targets)@[j]
            &&& final(moving_up)@ == old(moving_up)@.update(elevator as int, up)
            &&& final(decision).dests@ == old(decision).dests@.update(elevator as int, dest)
            &&& final(decision).waits@ == old(decision).waits@
        }),
        targets_ok(final(targets)@, building.nfloors()),
        final(decision).fits(building),
{
    let ghost t0 = targets@;
    targets[elevator].insert(person.src);
    proof {
        assert forall|j: int, t: usize| 0 <= j < targets@.len() && #[trigger] targets@[j]@.contains(t) implies t < building.nfloors() by {
            if j == elevator && t != person.src {
                assert(t0[j]@.contains(t));
            }
        }
        assert(building.elevator_ok(building.elevators@[elevator as int]));
        lemma_position_floor(
            building.elevators@[elevator as int].pos as int,
            building.nfloors(),
            building.time_per_floor as int,
        );
    }
    let floor = building.elevators[elevator].floor(building.time_per_floor);
    match decision.dests[elevator] {
        None => {
            moving_up.set(elevator, person.src >= floor);
            decision.dests.set(elevator, Some(person.src));
        },
        Some(curr_target) => {
            if (moving_up[elevator] && person.src > floor && person.src < curr_target) || (!moving_up[elevator]
                && person.src < floor && person.src > curr_target) {
                decision.dests.set(elevator, Some(person.src));
            }
            proof {
                assert(moving_up@ =~= old(moving_up)@.update(elevator as int, old(moving_up)@[elevator as int]));
                assert(old(decision).dests@[elevator as int] == Some(curr_target));
                assert(decision.dests@ =~= old(decision).dests@.update(elevator as int, pickup(
                    old(decision).dests@[elevator as int],
                    old(moving_up)@[elevator as int],
                    floor as int,
                    person.src,
                ).0));
            }
        },
    }
}

/// Distance between two floors.
pub open spec fn floor_dist(a: int, b: int) -> int {
    if a >= b { a - b } else { b - a }
}

/// Gemini's cost of sending elevator `i` to pick up a person at `src`: the
/// distance in floors, plus the number of floors if the elevator is heading
/// away from the person.
pub open spec fn gemini_cost(b: &Building, dests: Seq<Option<usize>>, src: int, i: int) -> int {
    let floor = (b.elevators@[i].pos / b.time_per_floor) as int;
    let dist = floor_dist(floor, src);
    let penalty = match dests[i] {
        Some(t) => if (t > floor && src < floor) || (t < floor && src > floor) { b.nfloors() } else { 0 },
        None => 0,
    };
    dist + penalty
}

/// Gemini's cost of an elevator is at least its distance in floors to the
/// person, exactly that when it is idle or not heading away from the
/// person, and that plus the number of floors when it is heading away.
pub proof fn lemma_gemini_cost(b: &Building, dests: Seq<Option<usize>>, src: int, i: int)
    requires
        b.nfloors() > 0,
    ensures
        ({
            let floor = (b.elevators@[i].pos / b.time_per_floor) as int;
            let dist = if floor >= src { floor - src } else { src - floor };
            let away = dests[i] matches Some(t) && ((t > floor && src < floor) || (t < floor && src > floor));
            &&& away ==> gemini_cost(b, dests, src, i) == dist + b.nfloors()
            &&& !away ==> gemini_cost(b, dests, src, i) == dist
            &&& gemini_cost(b, dests, src, i) >= dist
        }),
{
}

/// A LOOK policy: each elevator keeps a set of target floors and keeps going
/// in its direction while there are targets that way. Requests go to the
/// nearest elevator, with a penalty for moving away.
pub struct Gemini {
    targets: Vec<BTreeSet<usize>>,
    moving_up: Vec<bool>,
}

impl Gemini {
    pub closed spec fn target_sets(&self) -> Seq<Set<usize>> {
        self.targets@.map_values(|t: BTreeSet<usize>| t@)
    }

    pub closed spec fn directions(&self) -> Seq<bool> {
        self.moving_up@
    }
}

impl Gemini {
    /// A consistent policy keeps one target set and one direction per
    /// elevator.
    pub proof fn lemma_shape(&self, floors: int, elevators: int, now: int)
        requires
            self.inv(floors, elevators, now),
        ensures
            self.target_sets().len() == elevators,
            self.directions().len() == elevators,
    {
    }

}

impl Policy for Gemini {
    /// A wait coming due changes nothing: this policy gives no wait
    /// commands.
    open spec fn wait_handled(&self, after: &Self, b: &Building, d0: &Decision, d1: &Decision, elevator: usize) -> bool {
        *after == *self && *d1 == *d0
    }

    fn waited(&mut self, _building: &Building, _decision: &mut Decision, _elevator: usize) {
    }

    /// What `request` does: the elevator with the lowest cost (the first such)
    /// gets the person, whose floor becomes one of its targets.
    open spec fn requested(&self, after: &Self, b: &Building, d0: &Decision, d1: &Decision, person: &Person, e: usize) -> bool {
        &&& forall|j: int|
            0 <= j < b.nelevators() ==> gemini_cost(b, d0.dests@, person.src as int, e as int)
                <= #[trigger] gemini_cost(b, d0.dests@, person.src as int, j)
        &&& forall|j: int|
            0 <= j < e ==> gemini_cost(b, d0.dests@, person.src as int, e as int)
                < #[trigger] gemini_cost(b, d0.dests@, person.src as int, j)
        &&& ({
            let floor = (b.elevators@[e as int].pos / b.time_per_floor) as int;
            let (dest, up) = pickup(
                d0.dests@[e as int],
                self.directions()[e as int],
                floor,
                person.src,
            );
            &&& after.target_sets() == self.target_sets().update(
                e as int,
                self.target_sets()[e as int].insert(person.src),
            )
            &&& after.directions() == self.directions().update(e as int, up)
            &&& d1.dests@ == d0.dests@.update(e as int, dest)
            &&& d1.waits@ == d0.waits@
        })
    }

    /// What `arrival` does: the LOOK rule picks the next target.
    open spec fn arrived(&self, after: &Self, b: &Building, d0: &Decision, d1: &Decision, elevator: usize) -> bool {
        &&& ({
            let floor = (b.elevators@[elevator as int].pos / b.time_per_floor) as int;
            let s = arrival_targets(
                self.target_sets()[elevator as int],
                floor,
                b.elevators@[elevator as int].passengers@,
            );
            let (dest, up) = look(s, floor, self.directions()[elevator as int]);
            &&& after.target_sets() == self.target_sets().update(elevator as int, s)
            &&& after.directions() == self.directions().update(elevator as int, up)
            &&& d1.dests@ == d0.dests@.update(elevator as int, dest)
            &&& d1.waits@ == d0.waits@
        })
    }

    open spec fn supports(floors: int, elevators: int) -> bool {
        floors >= 1
    }

    closed spec fn inv(&self, floors: int, elevators: int, now: int) -> bool {
        &&& floors >= 1
        &&& self.targets@.len() == elevators
        &&& self.moving_up@.len() == elevators
        &&& targets_ok(self.targets@, floors)
    }

    proof fn lemma_inv_later(&self, floors: int, elevators: int, t1: int, t2: int) {
    }

    proof fn lemma_inv_supports(&self, floors: int, elevators: int, now: int) {
    }

    /// No targets; every elevator starts moving up.
    fn new(building: &Building) -> (p: Self)
        ensures
            p.target_sets() == Seq::new(building.nelevators() as nat, |i: int| Set::<usize>::empty()),
            p.directions() == Seq::new(building.nelevators() as nat, |i: int| true),
    {
        let n = building.elevators.len();
        let p = Gemini { targets: new_targets(n), moving_up: all_up(n) };
        proof {
            assert(p.target_sets() =~= Seq::new(n as nat, |i: int| Set::<usize>::empty()));
        }
        p
    }

    /// The LOOK rule picks the next target.
    fn arrival(&mut self, building: &Building, decision: &mut Decision, elevator: usize)
        ensures
            old(self).arrived(final(self), building, old(decision), final(decision), elevator),
    {
        look_arrival(&mut self.targets, &mut self.moving_up, building, decision, elevator);
        proof {
            let floor = (building.elevators@[elevator as int].pos / building.time_per_floor) as int;
            let s = arrival_targets(
                old(self).target_sets()[elevator as int],
                floor,
                building.elevators@[elevator as int].passengers@,
            );
            assert(self.target_sets() =~= old(self).target_sets().update(elevator as int, s));
        }
    }

    /// The elevator with the lowest cost (the first such) gets the person.
    fn request(&mut self, building: &Building, decision: &mut Decision, person: &Person) -> (e: usize)
        ensures
            old(self).requested(final(self), building, old(decision), final(decision), person, e),
    {
        let n = building.elevators.len();
        let ghost dests = decision.dests@;
        let mut best: usize = 0;
        let mut best_cost: u64 = 0;
        let mut i: usize = 0;
        while i < n
            invariant
                n == building.nelevators(),
                n > 0,
                i <= n,
                building.runnable(),
                building.nfloors() >= 1,
                decision.dests@ == dests,
                decision.fits(building),
                person.src < building.nfloors(),
                best < n,
                i > 0 ==> best < i,
                i == 0 ==> best == 0,
                i > 0 ==> best_cost == gemini_cost(building, dests, person.src as int, best as int),
                forall|j: int| 0 <= j < i ==> best_cost <= #[trigger] gemini_cost(building, dests, person.src as int, j),
                forall|j: int| 0 <= j < best ==> best_cost < #[trigger] gemini_cost(building, dests, person.src as int, j),
            decreases n - i,
        {
            proof {
                assert(building.elevator_ok(building.elevators@[i as int]));
                lemma_position_floor(
                    building.elevators@[i as int].pos as int,
                    building.nfloors(),
                    building.time_per_floor as int,
                );
            }
            let floor = building.elevators[i].floor(building.time_per_floor);
            let dist = if floor >= person.src { floor - person.src } else { person.src - floor };
            let penalty: usize = match decision.dests[i] {
                Some(target) => if (target > floor && person.src < floor) || (target < floor && person.src > floor) {
                    building.floors.len()
                } else {
                    0
                },
                None => 0,
            };
            let cost = dist as u64 + penalty as u64;
            if i == 0 || cost < best_cost {
                best = i;
                best_cost = cost;
            }
            i = i + 1;
        }
        look_request(&mut self.targets, &mut self.moving_up, building, decision, person, best);
        proof {
            assert(self.target_sets() =~= old(self).target_sets().update(
                best as int,
                old(self).target_sets()[best as int].insert(person.src),
            ));
        }
        best
    }
}

} // verus!
