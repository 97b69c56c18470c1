use crate::building::{lemma_at_floor, lemma_position_floor, Building, Person};
use crate::policies::gemini::{
    Gemini,
    all_up, arrival_targets, dest_set, floor_dist, highest_below, is_highest_below, is_lowest_above, look, lowest_above, pickup,
};
use crate::policy::{Decision, Policy};
use vstd::prelude::*;
use vstd::std_specs::bits::{axiom_u64_leading_zeros, axiom_u64_trailing_zeros, u64_leading_zeros, u64_trailing_zeros};

verus! {

/// Bit `i` of `m` is set.
pub open spec fn bit(m: u64, i: u64) -> bool {
    (m >> i) & 1u64 == 1u64
}

/// The floors whose bits are set in a mask.
pub open spec fn bits(m: u64) -> Set<usize> {
    Set::new(|i: usize| i < 64 && bit(m, i as u64))
}

proof fn lemma_bit_clear(m: u64, f: u64, i: u64)
    requires
        f < 64,
        i < 64,
    ensures
        bit(m & !(1u64 << f), i) == (i != f && bit(m, i)),
{
    assert((((m & !(1u64 << f)) >> i) & 1u64 == 1u64) == (i != f && (m >> i) & 1u64 == 1u64)) by (bit_vector)
        requires
            f < 64,
            i < 64,
    ;
}

proof fn lemma_bit_set(m: u64, d: u64, i: u64)
    requires
        d < 64,
        i < 64,
    ensures
        bit(m | (1u64 << d), i) == (i == d || bit(m, i)),
{
    assert((((m | (1u64 << d)) >> i) & 1u64 == 1u64) == (i == d || (m >> i) & 1u64 == 1u64)) by (bit_vector)
        requires
            d < 64,
            i < 64,
    ;
}

proof fn lemma_bit_above(m: u64, f: u64, i: u64)
    requires
        f < 63,
        i < 64,
    ensures
        bit(m & (!0u64 << ((f + 1) as u64)), i) == (i > f && bit(m, i)),
{
    assert((((m & (!0u64 << ((f + 1) as u64))) >> i) & 1u64 == 1u64) == (i > f && (m >> i) & 1u64 == 1u64))
        by (bit_vector)
        requires
            f < 63,
            i < 64,
    ;
}

proof fn lemma_bit_below(m: u64, f: u64, i: u64)
    requires
        f < 64,
        i < 64,
    ensures
        bit(m & (((1u64 << f) - 1) as u64), i) == (i < f && bit(m, i)),
{
    assert((((m & (((1u64 << f) - 1) as u64)) >> i) & 1u64 == 1u64) == (i < f && (m >> i) & 1u64 == 1u64))
        by (bit_vector)
        requires
            f < 64,
            i < 64,
    ;
}

proof fn lemma_zero_mask(m: u64, i: u64)
    requires
        m == 0,
        i < 64,
    ensures
        !bit(m, i),
{
    assert((m >> i) & 1u64 != 1u64) by (bit_vector)
        requires
            m == 0,
            i < 64,
    ;
}

/// The lowest set bit of a nonzero mask is its trailing zero count.
proof fn lemma_lowest_bit(m: u64)
    requires
        m != 0,
    ensures
        u64_trailing_zeros(m) < 64,
        bit(m, u64_trailing_zeros(m) as u64),
        forall|i: u64| i < u64_trailing_zeros(m) ==> !#[trigger] bit(m, i),
{
    axiom_u64_trailing_zeros(m);
    assert forall|i: u64| i < u64_trailing_zeros(m) implies !#[trigger] bit(m, i) by {
        assert((m >> i) & 1u64 == 0u64);
    }
}

/// The highest set bit of a nonzero mask is 63 minus its leading zero count.
proof fn lemma_highest_bit(m: u64)
    requires
        m != 0,
    ensures
        u64_leading_zeros(m) < 64,
        bit(m, (63 - u64_leading_zeros(m)) as u64),
        forall|i: u64| 63 - u64_leading_zeros(m) < i < 64 ==> !#[trigger] bit(m, i),
{
    axiom_u64_leading_zeros(m);
    let l = u64_leading_zeros(m);
    let k = (63 - l) as u64;
    assert((m >> k) & 1u64 != 0u64);
    assert((m >> k) & 1u64 == 1u64) by (bit_vector)
        requires
            (m >> k) & 1u64 != 0u64,
    ;
    assert forall|i: u64| 63 - u64_leading_zeros(m) < i < 64 implies !#[trigger] bit(m, i) by {
        assert((m >> i) & 1u64 == 0u64);
    }
}


/// The bits of `m` above bit `f`.
pub open spec fn above_mask(m: u64, f: u64) -> u64 {
    if f < 63 {
        m & (!0u64 << ((f + 1) as u64))
    } else {
        0
    }
}

/// The floors set in a mask, as seen from `f`: those above and those below.
proof fn lemma_mask_look(m: u64, f: u64)
    requires
        f < 64,
    ensures
        ({
            let above = above_mask(m, f);
            let below = m & (((1u64 << f) - 1) as u64);
            &&& above != 0 ==> u64_trailing_zeros(above) < 64 && lowest_above(bits(m), f as int) == Some(
                u64_trailing_zeros(above) as usize,
            )
            &&& above == 0 ==> lowest_above(bits(m), f as int) is None
            &&& below != 0 ==> u64_leading_zeros(below) < 64 && highest_below(bits(m), f as int) == Some(
                (63 - u64_leading_zeros(below)) as usize,
            )
            &&& below == 0 ==> highest_below(bits(m), f as int) is None
            &&& m != 0 && !bit(m, f) ==> above != 0 || below != 0
            &&& m == 0 ==> above == 0 && below == 0
        }),
{
    let above = above_mask(m, f);
    let below = m & (((1u64 << f) - 1) as u64);
    let s = bits(m);
    if f < 63 {
        assert(m == 0 ==> above == 0) by (bit_vector)
            requires
                f < 63,
                above == m & (!0u64 << ((f + 1) as u64)),
        ;
    }
    assert(m == 0 ==> below == 0) by (bit_vector)
        requires
            below == m & (((1u64 << f) - 1) as u64),
    ;
    assert forall|i: u64| i < 64 implies #[trigger] bit(above, i) == (i > f && bit(m, i)) by {
        if f < 63 {
            lemma_bit_above(m, f, i);
        } else {
            lemma_zero_mask(above, i);
        }
    }
    assert forall|i: u64| i < 64 implies #[trigger] bit(below, i) == (i < f && bit(m, i)) by {
        lemma_bit_below(m, f, i);
    }
    if above != 0 {
        lemma_lowest_bit(above);
        let t = u64_trailing_zeros(above) as u64;
        assert(is_lowest_above(s, f as int, t as usize)) by {
            assert(bit(above, t));
            assert forall|u: usize| #[trigger] s.contains(u) && u > f implies t <= u by {
                assert(bit(above, u as u64));
            }
        }
        let c = choose|c: usize| is_lowest_above(s, f as int, c);
        assert(c == t as usize);
    } else {
        assert forall|t: usize| !is_lowest_above(s, f as int, t) by {
            if s.contains(t) && t > f {
                lemma_zero_mask(above, t as u64);
                assert(bit(above, t as u64));
            }
        }
    }
    if below != 0 {
        lemma_highest_bit(below);
        let t = (63 - u64_leading_zeros(below)) as u64;
        assert(is_highest_below(s, f as int, t as usize)) by {
            assert(bit(below, t));
            assert forall|u: usize| #[trigger] s.contains(u) && u < f implies u <= t by {
                assert(bit(below, u as u64));
            }
        }
        let c = choose|c: usize| is_highest_below(s, f as int, c);
        assert(c == t as usize);
    } else {
        assert forall|t: usize| !is_highest_below(s, f as int, t) by {
            if s.contains(t) && t < f {
                lemma_zero_mask(below, t as u64);
                assert(bit(below, t as u64));
            }
        }
    }
    if m != 0 && !bit(m, f) && above == 0 && below == 0 {
        if f < 63 {
            assert(m == 0) by (bit_vector)
                requires
                    f < 63,
                    (m >> f) & 1u64 != 1u64,
                    m & (!0u64 << ((f + 1) as u64)) == 0,
                    m & (((1u64 << f) - 1) as u64) == 0,
            ;
        } else {
            assert(m == 0) by (bit_vector)
                requires
                    f == 63,
                    (m >> f) & 1u64 != 1u64,
                    m & (((1u64 << f) - 1) as u64) == 0,
            ;
        }
    }
}

/// Every mask holds floors of the building only.
pub open spec fn masks_ok(targets: Seq<u64>, floors: int) -> bool {
    forall|i: int, b: u64| 0 <= i < targets.len() && floors <= b < 64 ==> !#[trigger] bit(targets[i], b)
}

/// Empty masks, one per elevator.
fn zero_masks(n: usize) -> (r: Vec<u64>)
    ensures
        r@ == Seq::new(n as nat, |i: int| 0u64),
{
    let mut r: Vec<u64> = Vec::new();
    let mut i: usize = 0;
    while i < n
        invariant
            i <= n,
            r@ == Seq::new(i as nat, |j: int| 0u64),
        decreases n - i,
    {
        r.push(0);
        proof {
            assert(r@ =~= Seq::new((i + 1) as nat, |j: int| 0u64));
        }
        i = i + 1;
    }
    r
}

/// OpenAI's cost of sending elevator `i` to pick up a person at `src`: the
/// distance in floors, the number of floors if the elevator is heading
/// away from the person, two per passenger, and a thousand if it is full.
pub open spec fn openai_cost(b: &Building, dests: Seq<Option<usize>>, src: int, i: int) -> int {
    let e = b.elevators@[i];
    let floor = (e.pos / b.time_per_floor) as int;
    let dist = floor_dist(floor, src);
    let dir_penalty = match dests[i] {
        Some(t) => if (t > floor && src < floor) || (t < floor && src > floor) { b.nfloors() } else { 0 },
        None => 0,
    };
    let load_penalty = e.passengers@.len() * 2;
    let full_penalty = if e.passengers@.len() >= e.capacity { 1000int } else { 0int };
    dist + dir_penalty + load_penalty + full_penalty
}

/// A LOOK policy that keeps each elevator's targets as a bit mask, for
/// buildings of up to 64 floors.
pub struct OpenAi {
    targets: Vec<u64>,
    moving_up: Vec<bool>,
}

impl OpenAi {
    /// The target floors of each elevator.
    pub closed spec fn target_sets(&self) -> Seq<Set<usize>> {
        self.targets@.map_values(|m: u64| bits(m))
    }

    /// Whether each elevator is moving up.
    pub closed spec fn directions(&self) -> Seq<bool> {
        self.moving_up@
    }

    pub fn name(&self) -> (r: &'static str)
        ensures
            r@ == "OpenAI"@,
    {
        "OpenAI"
    }
}

impl OpenAi {
    /// A consistent policy keeps one target set and one direction per
    /// elevator.
    pub proof fn lemma_shape(&self, floors: int, elevators: int, now: int)
        requires
            self.inv(floors, elevators, now),
        ensures
            self.target_sets().len() == elevators,
            self.directions().len() == elevators,
    {
    }

}

impl Policy for OpenAi {
    /// A wait coming due changes nothing: this policy gives no wait
    /// commands.
    open spec fn wait_handled(&self, after: &Self, b: &Building, d0: &Decision, d1: &Decision, elevator: usize) -> bool {
        *after == *self && *d1 == *d0
    }

    fn waited(&mut self, _building: &Building, _decision: &mut Decision, _elevator: usize) {
    }

    /// What `request` does: the elevator with the lowest cost (the first such)
    /// gets the person, whose floor becomes one of its targets.
    open spec fn requested(&self, after: &Self, b: &Building, d0: &Decision, d1: &Decision, person: &Person, e: usize) -> bool {
        &&& forall|j: int|
            0 <= j < b.nelevators() ==> openai_cost(b, d0.dests@, person.src as int, e as int)
                <= #[trigger] openai_cost(b, d0.dests@, person.src as int, j)
        &&& forall|j: int|
            0 <= j < e ==> openai_cost(b, d0.dests@, person.src as int, e as int)
                < #[trigger] openai_cost(b, d0.dests@, person.src as int, j)
        &&& ({
            let floor = (b.elevators@[e as int].pos / b.time_per_floor) as int;
            let (dest, up) = pickup(
                d0.dests@[e as int],
                self.directions()[e as int],
                floor,
                person.src,
            );
            &&& after.target_sets() == self.target_sets().update(
                e as int,
                self.target_sets()[e as int].insert(person.src),
            )
            &&& after.directions() == self.directions().update(e as int, up)
            &&& d1.dests@ == d0.dests@.update(e as int, dest)
            &&& d1.waits@ == d0.waits@
        })
    }

    /// What `arrival` does: the LOOK rule picks the next target.
    open spec fn arrived(&self, after: &Self, b: &Building, d0: &Decision, d1: &Decision, elevator: usize) -> bool {
        &&& ({
            let floor = (b.elevators@[elevator as int].pos / b.time_per_floor) as int;
            let s = arrival_targets(
                self.target_sets()[elevator as int],
                floor,
                b.elevators@[elevator as int].passengers@,
            );
            let (dest, up) = look(s, floor, self.directions()[elevator as int]);
            &&& after.target_sets() == self.target_sets().update(elevator as int, s)
            &&& after.directions() == self.directions().update(elevator as int, up)
            &&& d1.dests@ == d0.dests@.update(elevator as int, dest)
            &&& d1.waits@ == d0.waits@
        })
    }

    open spec fn supports(floors: int, elevators: int) -> bool {
        1 <= floors <= 64
    }

    closed spec fn inv(&self, floors: int, elevators: int, now: int) -> bool {
        &&& 1 <= floors <= 64
        &&& self.targets@.len() == elevators
        &&& self.moving_up@.len() == elevators
        &&& masks_ok(self.targets@, floors)
    }

    proof fn lemma_inv_later(&self, floors: int, elevators: int, t1: int, t2: int) {
    }

    proof fn lemma_inv_supports(&self, floors: int, elevators: int, now: int) {
    }

    /// No targets; every elevator starts moving up.
    fn new(building: &Building) -> (p: Self)
        ensures
            p.target_sets() == Seq::new(building.nelevators() as nat, |i: int| Set::<usize>::empty()),
            p.directions() == Seq::new(building.nelevators() as nat, |i: int| true),
    {
        let n = building.elevators.len();
        let p = OpenAi { targets: zero_masks(n), moving_up: all_up(n) };
        proof {
            assert forall|i: int, b: u64| 0 <= i < n && building.nfloors() <= b < 64 implies !#[trigger] bit(
                p.targets@[i],
                b,
            ) by {
                assert(p.targets@[i] == 0u64);
                lemma_zero_mask(0u64, b);
            }
            assert forall|i: int| 0 <= i < n implies #[trigger] p.target_sets()[i] =~= Set::<usize>::empty() by {
                assert(p.targets@[i] == 0u64);
                assert forall|j: usize| !bits(0u64).contains(j) by {
                    if j < 64 {
                        lemma_zero_mask(0u64, j as u64);
                    }
                }
            }
            assert(p.target_sets() =~= Seq::new(n as nat, |i: int| Set::<usize>::empty()));
        }
        p
    }

    /// The LOOK rule picks the next target.
    fn arrival(&mut self, building: &Building, decision: &mut Decision, elevator: usize)
        ensures
            old(self).arrived(final(self), building, old(decision), final(decision), elevator),
    {
        let nf = building.floors.len();
        proof {
            assert(building.elevator_ok(building.elevators@[elevator as int]));
            lemma_position_floor(
                building.elevators@[elevator as int].pos as int,
                building.nfloors(),
                building.time_per_floor as int,
            );
        }
        let e = &building.elevators[elevator];
        let floor = e.floor(building.time_per_floor);
        let ghost m0 = self.targets@[elevator as int];
        let ghost fl = floor as u64;
        let mut mask: u64 = self.targets[elevator] & !(1u64 << (floor as u64));
        proof {
            assert(bits(mask) =~= bits(m0).remove(floor)) by {
                assert forall|i: usize| bits(mask).contains(i) <==> bits(m0).remove(floor).contains(i) by {
                    if i < 64 {
                        lemma_bit_clear(m0, fl, i as u64);
                    }
                }
            }
            assert forall|b: u64| nf <= b < 64 implies !#[trigger] bit(mask, b) by {
                lemma_bit_clear(m0, fl, b);
                assert(!bit(self.targets@[elevator as int], b));
            }
            assert(dest_set(e.passengers@.take(0)) =~= Set::<usize>::empty());
            assert(bits(mask) =~= bits(m0).remove(floor).union(dest_set(e.passengers@.take(0))));
        }
        let ps = &e.passengers;
        let n = ps.len();
        let mut i: usize = 0;
        while i < n
            invariant
                i <= n,
                n == ps@.len(),
                1 <= nf <= 64,
                nf == building.nfloors(),
                forall|k: int| 0 <= k < ps@.len() ==> building.person_fits(#[trigger] ps@[k]),
                forall|b: u64| nf <= b < 64 ==> !#[trigger] bit(mask, b),
                bits(mask) == bits(m0).remove(floor).union(dest_set(ps@.take(i as int))),
            decreases n - i,
        {
            let d = ps[i].dest;
            let ghost before = mask;
            proof {
                assert(building.person_fits(ps@[i as int]));
            }
            mask = mask | (1u64 << (d as u64));
            proof {
                assert forall|b: u64| nf <= b < 64 implies !#[trigger] bit(mask, b) by {
                    lemma_bit_set(before, d as u64, b);
                }
                assert forall|x: usize| bits(mask).contains(x) <==> bits(before).contains(x) || x == d by {
                    if x < 64 {
                        lemma_bit_set(before, d as u64, x as u64);
                    }
                }
                assert forall|x: usize| dest_set(ps@.take(i + 1)).contains(x) <==> dest_set(ps@.take(i as int)).contains(x) || x == d by {
                    if dest_set(ps@.take(i + 1)).contains(x) {
                        let j = choose|j: int| 0 <= j < i + 1 && (#[trigger] ps@.take(i + 1)[j]).dest == x;
                        if j < i {
                            assert(ps@.take(i as int)[j] == ps@.take(i + 1)[j]);
                        }
                    }
                    if x == d {
                        assert(ps@.take(i + 1)[i as int].dest == x);
                    }
                    if dest_set(ps@.take(i as int)).contains(x) {
                        let j = choose|j: int| 0 <= j < i && (#[trigger] ps@.take(i as int)[j]).dest == x;
                        assert(ps@.take(i + 1)[j] == ps@.take(i as int)[j]);
                    }
                }
                assert(bits(mask) =~= bits(m0).remove(floor).union(dest_set(ps@.take(i + 1))));
            }
            i = i + 1;
        }
                proof {
            assert(ps@.take(n as int) =~= ps@);
            assert(bits(mask) == arrival_targets(bits(m0), floor as int, ps@));
            // The elevator stands at its floor, so no passenger is headed there.
            lemma_at_floor(e.pos as int, building.time_per_floor as int);
            if floor < 64 && bit(mask, fl) {
                assert(bits(mask).contains(floor));
                assert(dest_set(ps@).contains(floor));
                let k = choose|k: int| 0 <= k < ps@.len() && (#[trigger] ps@[k]).dest == floor;
                assert(ps@[k].dest * building.time_per_floor != e.pos);
            }
        }
        self.targets.set(elevator, mask);
        proof {
            assert(self.target_sets() =~= old(self).target_sets().update(elevator as int, bits(mask)));
            lemma_mask_look(mask, fl);
            assert forall|x: usize| #[trigger] bits(mask).contains(x) implies x < nf by {
                if x >= nf {
                    assert(!bit(mask, x as u64));
                }
            }
        }
        if mask == 0 {
            decision.dests.set(elevator, None);
            proof {
                assert(self.moving_up@ =~= old(self).moving_up@.update(elevator as int, old(self).moving_up@[elevator as int]));
            }
            return;
        }
        let floors_above = if floor < 63 {
            mask & (!0u64 << ((floor + 1) as u64))
        } else {
            0
        };
        proof {
            assert((1u64 << fl) >= 1) by (bit_vector)
                requires
                    fl < 64,
            ;
        }
        let floors_below = mask & ((1u64 << (floor as u64)) - 1);
        if self.moving_up[elevator] {
            if floors_above != 0 {
                decision.dests.set(elevator, Some(floors_above.trailing_zeros() as usize));
                proof {
                    assert(self.moving_up@ =~= old(self).moving_up@.update(elevator as int, true));
                }
            } else {
                self.moving_up.set(elevator, false);
                decision.dests.set(elevator, Some(63 - floors_below.leading_zeros() as usize));
            }
        } else {
            if floors_below != 0 {
                decision.dests.set(elevator, Some(63 - floors_below.leading_zeros() as usize));
                proof {
                    assert(self.moving_up@ =~= old(self).moving_up@.update(elevator as int, false));
                }
            } else {
                self.moving_up.set(elevator, true);
                decision.dests.set(elevator, Some(floors_above.trailing_zeros() as usize));
            }
        }
    }

    /// The elevator with the lowest cost (the first such) gets the person;
    /// their floor becomes one of its targets.
    fn request(&mut self, building: &Building, decision: &mut Decision, person: &Person) -> (e: usize)
        ensures
            old(self).requested(final(self), building, old(decision), final(decision), person, e),
    {
        let n = building.elevators.len();
        let nf = building.floors.len();
        let ghost dests = decision.dests@;
        let mut best: usize = 0;
        let mut best_cost: u64 = 0;
        let mut i: usize = 0;
        while i < n
            invariant
                n == building.nelevators(),
                nf == building.nfloors(),
                n > 0,
                i <= n,
                building.runnable(),
                1 <= nf <= 64,
                decision.dests@ == dests,
                decision.fits(building),
                person.src < building.nfloors(),
                best < n,
                i > 0 ==> best < i,
                i == 0 ==> best == 0,
                i > 0 ==> best_cost == openai_cost(building, dests, person.src as int, best as int),
                forall|j: int| 0 <= j < i ==> best_cost <= #[trigger] openai_cost(building, dests, person.src as int, j),
                forall|j: int| 0 <= j < best ==> best_cost < #[trigger] openai_cost(building, dests, person.src as int, j),
            decreases n - i,
        {
            proof {
                assert(building.elevator_ok(building.elevators@[i as int]));
                lemma_position_floor(
                    building.elevators@[i as int].pos as int,
                    building.nfloors(),
                    building.time_per_floor as int,
                );
            }
            let e = &building.elevators[i];
            let floor = e.floor(building.time_per_floor);
            let dist = if floor >= person.src { floor - person.src } else { person.src - floor };
            let dir_penalty: u64 = match decision.dests[i] {
                Some(t) => if (t > floor && person.src < floor) || (t < floor && person.src > floor) {
                    nf as u64
                } else {
                    0
                },
                None => 0,
            };
            let load_penalty = (e.passengers.len() * 2) as u64;
            let full_penalty: u64 = if e.passengers.len() >= e.capacity { 1000 } else { 0 };
            let cost = dist as u64 + dir_penalty + load_penalty + full_penalty;
            if i == 0 || cost < best_cost {
                best = i;
                best_cost = cost;
            }
            i = i + 1;
        }
        let ghost t0 = self.targets@;
        let old_mask = self.targets[best];
        let new_mask = old_mask | (1u64 << (person.src as u64));
        self.targets.set(best, new_mask);
        proof {
            assert(bits(new_mask) =~= bits(old_mask).insert(person.src)) by {
                assert forall|x: usize| bits(new_mask).contains(x) <==> bits(old_mask).insert(person.src).contains(x) by {
                    if x < 64 {
                        lemma_bit_set(old_mask, person.src as u64, x as u64);
                    }
                }
            }
            assert(self.targets@ == t0.update(best as int, new_mask));
            assert forall|i: int, b: u64| 0 <= i < self.targets@.len() && nf <= b < 64 implies !#[trigger] bit(
                self.targets@[i],
                b,
            ) by {
                if i == best {
                    lemma_bit_set(old_mask, person.src as u64, b);
                    assert(!bit(t0[i], b));
                }
            }
            assert(self.target_sets() =~= old(self).target_sets().update(
                best as int,
                old(self).target_sets()[best as int].insert(person.src),
            ));
            assert(building.elevator_ok(building.elevators@[best as int]));
            lemma_position_floor(
                building.elevators@[best as int].pos as int,
                building.nfloors(),
                building.time_per_floor as int,
            );
        }
        let floor = building.elevators[best].floor(building.time_per_floor);
        match decision.dests[best] {
            None => {
                self.moving_up.set(best, person.src >= floor);
                decision.dests.set(best, Some(person.src));
            },
            Some(curr_target) => {
                if (self.moving_up[best] && person.src > floor && person.src < curr_target) || (!self.moving_up[best]
                    && person.src < floor && person.src > curr_target) {
                    decision.dests.set(best, Some(person.src));
                }
                proof {
                    assert(self.moving_up@ =~= old(self).moving_up@.update(best as int, old(self).moving_up@[best as int]));
                    assert(decision.dests@ =~= old(decision).dests@.update(best as int, pickup(
                        old(decision).dests@[best as int],
                        old(self).moving_up@[best as int],
                        floor as int,
                        person.src,
                    ).0));
                }
            },
        }
        best
    }
}

/// The bitmask rule of `OpenAi` and the set rule of `Gemini` agree: given
/// the same targets and direction for an elevator, its arrival sends it to
/// the same floor, in the same direction, with the same targets left, and
/// no other command changes differently.
pub proof fn lemma_agrees_with_gemini(
    o0: OpenAi,
    o1: OpenAi,
    g0: Gemini,
    g1: Gemini,
    b: Building,
    d0: Decision,
    d1: Decision,
    d2: Decision,
    e: usize,
)
    requires
        o0.arrived(&o1, &b, &d0, &d1, e),
        g0.arrived(&g1, &b, &d0, &d2, e),
        e < o0.target_sets().len(),
        e < o0.directions().len(),
        e < g0.target_sets().len(),
        e < g0.directions().len(),
        o0.target_sets()[e as int] == g0.target_sets()[e as int],
        o0.directions()[e as int] == g0.directions()[e as int],
    ensures
        d1.dests@ == d2.dests@,
        d1.waits@ == d2.waits@,
        o1.target_sets()[e as int] == g1.target_sets()[e as int],
        o1.directions()[e as int] == g1.directions()[e as int],
{
}

} // verus!
