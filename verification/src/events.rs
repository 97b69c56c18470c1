//! What a run of the building does, event by event.
use crate::building::{
    leaving, lemma_queued_push, lemma_queued_update, next_request_time, staying, Building, Elevator, Floor,
    Person, MAX_WAITING,
};
use crate::policy::{Decision, Policy};
use crate::stats::StatsModel;
use crate::traffic::Traffic;
use vstd::prelude::*;

verus! {

/// Everything a run changes: the building, the policy, its commands, the
/// traffic and the statistics.
pub struct Snapshot<P, T> {
    pub building: Building,
    pub policy: P,
    pub decision: Decision,
    pub traffic: T,
    pub stats: StatsModel,
}

/// Elevator `e` reached its destination at `time`, in building `b0`, and the
/// policy was told: from `b0`, `p0`, `d0`, `s0` to `b1`, `p1`, `d1`, `s1`.
/// The doors open first (see `doors_opened`); the elevator's destination is
/// cleared; the policy then handles the arrival in the building it sees
/// after the doors opened; last, the time of the last event becomes `time`.
pub open spec fn arrival_effect<P: Policy>(
    b0: Building,
    b1: Building,
    p0: P,
    p1: P,
    d0: Decision,
    d1: Decision,
    s0: StatsModel,
    s1: StatsModel,
    e: int,
    time: int,
) -> bool {
    let f = d0.dests@[e]->0 as int;
    exists|a: Building, dm: Decision|
        #![trigger b0.doors_opened(&a, e, f, time, s0, s1), p0.arrived(&p1, &a, &dm, &d1, e as usize)]
        {
            &&& b0.doors_opened(&a, e, f, time, s0, s1)
            &&& dm.dests@ == d0.dests@.update(e, None)
            &&& dm.waits@ == d0.waits@
            &&& p0.arrived(&p1, &a, &dm, &d1, e as usize)
            &&& b1.same_but_time(&a, time)
        }
}

/// The person of a request made at `time` from floor `r.0` to floor `r.1`.
pub open spec fn requester(r: (usize, usize), time: int) -> Person {
    Person { src: r.0, dest: r.1, req_time: time as u64 }
}

/// The policy gave `person` an elevator, and the person now waits for it.
pub open spec fn assigned<P: Policy>(
    b0: Building,
    b1: Building,
    p0: P,
    p1: P,
    d0: Decision,
    d1: Decision,
    person: Person,
) -> bool {
    exists|e: usize|
        #[trigger] p0.requested(&p1, &b0, &d0, &d1, &person, e) && e < b0.nelevators() && b0.person_queued(
            &b1,
            person,
            e as int,
        )
}

/// The traffic made a request at `time`: from `b0`, `p0`, `d0`, `t0` to
/// `b1`, `p1`, `d1`, `t1`. Unless `MAX_WAITING` people already wait at its
/// floor, the policy is told and the person joins the queue of the elevator
/// the policy gave; otherwise the request is dropped. Either way the times
/// of the last event and of the last request become `time`.
pub open spec fn request_effect<P: Policy, T: Traffic>(
    b0: Building,
    b1: Building,
    p0: P,
    p1: P,
    d0: Decision,
    d1: Decision,
    t0: T,
    t1: T,
    time: int,
) -> bool {
    exists|r: (usize, usize)|
        #[trigger] t0.made(&t1, time, r) && {
            &&& r.0 < b0.nfloors()
            &&& r.1 < b0.nfloors()
            &&& r.0 != r.1
            &&& b1.prev_time == time
            &&& b1.prev_req_time == time
            &&& if b0.floors@[r.0 as int].waiting() < MAX_WAITING {
                assigned(b0, b1, p0, p1, d0, d1, requester(r, time))
            } else {
                &&& b1.floors == b0.floors
                &&& b1.elevators == b0.elevators
                &&& b1.time_per_floor == b0.time_per_floor
                &&& b1.time_per_stop == b0.time_per_stop
                &&& p1 == p0
                &&& d1 == d0
            }
        }
}

impl<P: Policy, T: Traffic> Snapshot<P, T> {
    /// The building can be simulated and the commands fit it.
    pub open spec fn sound(&self) -> bool {
        &&& self.building.runnable()
        &&& self.decision.fits(&self.building)
    }

    /// When elevator `e` reaches its destination; `u64::MAX` if it has none.
    pub open spec fn arrival_of(&self, e: int) -> int {
        self.building.arrival_or_never(e, self.decision.dests@[e])
    }

    /// When the next request is due.
    pub open spec fn request_time(&self) -> int {
        next_request_time(
            self.building.prev_time as int,
            self.building.prev_req_time as int,
            self.traffic.spec_when() as int,
        )
    }

    /// Elevator `e` arrives first; of those that arrive first, it has the
    /// lowest index.
    pub open spec fn first_arrival(&self, e: int) -> bool {
        &&& 0 <= e < self.building.nelevators()
        &&& forall|j: int| 0 <= j < self.building.nelevators() ==> self.arrival_of(e) <= #[trigger] self.arrival_of(j)
        &&& forall|j: int| 0 <= j < e ==> self.arrival_of(e) < #[trigger] self.arrival_of(j)
    }

    /// The wait command of elevator `w` comes due first; of those that come
    /// due first, it has the lowest index.
    pub open spec fn first_wait(&self, w: int) -> bool {
        let ws = self.decision.waits@;
        &&& 0 <= w < ws.len()
        &&& forall|j: int| 0 <= j < ws.len() ==> ws[w] <= #[trigger] ws[j]
        &&& forall|j: int| 0 <= j < w ==> ws[w] < #[trigger] ws[j]
    }

    /// No event is left to happen by time `until`: the run has reached it,
    /// or every arrival, wait and request lies after it.
    pub open spec fn quiet(&self, until: int) -> bool {
        ||| self.building.prev_time >= until
        ||| {
            &&& forall|j: int| 0 <= j < self.building.nelevators() ==> #[trigger] self.arrival_of(j) > until
            &&& forall|j: int| 0 <= j < self.decision.waits@.len() ==> #[trigger] self.decision.waits@[j] > until
            &&& self.request_time() > until
        }
    }

    /// Elevator `e` reaches its destination at `t`: the elevators move up to
    /// `t`, then the arrival takes place.
    pub open spec fn arrival_event(&self, next: &Self, e: int, t: int) -> bool {
        exists|m: Building|
            #[trigger] self.building.moved_to(&m, self.decision.dests@, t) && {
                &&& m.prev_time == self.building.prev_time
                &&& arrival_effect(
                    m,
                    next.building,
                    self.policy,
                    next.policy,
                    self.decision,
                    next.decision,
                    self.stats,
                    next.stats,
                    e,
                    t,
                )
                &&& next.traffic == self.traffic
            }
    }

    /// The wait command of elevator `w` comes due at `t`: the elevators move
    /// up to `t`, the command is cleared, and the policy is told, which may
    /// give new commands but moves no wait earlier.
    pub open spec fn wait_event(&self, next: &Self, w: int, t: int) -> bool {
        exists|m: Building, dm: Decision|
            #![trigger self.building.moved_to(&m, self.decision.dests@, t), self.policy.wait_handled(&next.policy, &m, &dm, &next.decision, w as usize)]
            {
                &&& self.building.moved_to(&m, self.decision.dests@, t)
                &&& m.prev_time == self.building.prev_time
                &&& dm.waits@ == self.decision.waits@.update(w, u64::MAX)
                &&& dm.dests@ == self.decision.dests@
                &&& self.policy.wait_handled(&next.policy, &m, &dm, &next.decision, w as usize)
                &&& next.policy.inv(m.nfloors(), m.nelevators(), m.prev_time as int)
                &&& next.decision.fits(&m)
                &&& next.decision.waits_no_earlier(&dm)
                &&& next.building.same_but_time(&m, t)
                &&& next.traffic == self.traffic
                &&& next.stats == self.stats
            }
    }

    /// The traffic's next request comes at `t`: the elevators move up to
    /// `t`, then the request is handled.
    pub open spec fn request_event(&self, next: &Self, t: int) -> bool {
        exists|m: Building|
            #[trigger] self.building.moved_to(&m, self.decision.dests@, t) && {
                &&& m.prev_time == self.building.prev_time
                &&& request_effect(
                    m,
                    next.building,
                    self.policy,
                    next.policy,
                    self.decision,
                    next.decision,
                    self.traffic,
                    next.traffic,
                    t,
                )
                &&& next.stats == self.stats
            }
    }

    /// `next` follows from this state by the earliest event, if it comes by
    /// `until`: an elevator arriving, a wait coming due, or a request; on a
    /// tie, arrivals go first, then waits, then requests.
    pub open spec fn event(&self, next: &Self, until: int) -> bool {
        exists|e: int, w: int|
            #![trigger self.first_arrival(e), self.first_wait(w)]
            {
                &&& self.building.prev_time < until
                &&& self.first_arrival(e)
                &&& self.first_wait(w)
                &&& ({
                    let a = self.arrival_of(e);
                    let wt = self.decision.waits@[w] as int;
                    let r = self.request_time();
                    if a <= wt && a <= r {
                        a <= until && self.arrival_event(next, e, a)
                    } else if wt <= r {
                        wt <= until && self.wait_event(next, w, wt)
                    } else {
                        r <= until && self.request_event(next, r)
                    }
                })
            }
    }
}

/// Step `i` of `trace` is an event of a run to `until`.
pub open spec fn event_at<P: Policy, T: Traffic>(trace: Seq<Snapshot<P, T>>, i: int, until: int) -> bool {
    trace[i].event(&trace[i + 1], until)
}

/// `trace` is a run to `until` from the first state to the second: a
/// sequence of events, each the earliest one due, until none is left by
/// `until`; then the elevators move on to `until`, the time of the last
/// event becomes `until`, and the statistics tick to `until`.
pub open spec fn ran_by<P: Policy, T: Traffic>(
    trace: Seq<Snapshot<P, T>>,
    b0: Building,
    p0: P,
    d0: Decision,
    t0: T,
    s0: StatsModel,
    b1: Building,
    p1: P,
    d1: Decision,
    t1: T,
    s1: StatsModel,
    until: int,
) -> bool {
    &&& trace.len() > 0
    &&& trace[0].building == b0
    &&& trace[0].policy == p0
    &&& trace[0].decision == d0
    &&& trace[0].traffic == t0
    &&& trace[0].stats == s0
    &&& forall|i: int| 0 <= i < trace.len() - 1 ==> #[trigger] event_at(trace, i, until)
    &&& forall|i: int| 0 <= i < trace.len() ==> #[trigger] trace[i].sound()
    &&& trace.last().quiet(until)
    &&& trace.last().building.moved_to(&b1, trace.last().decision.dests@, until)
    &&& b1.prev_time == until
    &&& p1 == trace.last().policy
    &&& d1 == trace.last().decision
    &&& t1 == trace.last().traffic
    &&& s1 == trace.last().stats.tick(until)
}

/// A run to `until` took the building, policy, commands, traffic and
/// statistics from the first state to the second (see `ran_by`).
pub open spec fn ran<P: Policy, T: Traffic>(
    b0: Building,
    p0: P,
    d0: Decision,
    t0: T,
    s0: StatsModel,
    b1: Building,
    p1: P,
    d1: Decision,
    t1: T,
    s1: StatsModel,
    until: int,
) -> bool {
    exists|trace: Seq<Snapshot<P, T>>| #[trigger] ran_by(trace, b0, p0, d0, t0, s0, b1, p1, d1, t1, s1, until)
}

/// Number of people riding in the first `n` elevators.
pub open spec fn riding(es: Seq<Elevator>, n: int) -> int
    decreases n,
{
    if n <= 0 {
        0
    } else {
        riding(es, n - 1) + es[n - 1].passengers@.len()
    }
}

/// Number of people waiting on the first `n` floors.
pub open spec fn waiting_on(fs: Seq<Floor>, n: int) -> int
    decreases n,
{
    if n <= 0 {
        0
    } else {
        waiting_on(fs, n - 1) + fs[n - 1].waiting()
    }
}

/// Number of people in the building: waiting on a floor or riding.
pub open spec fn people_in(b: Building) -> int {
    waiting_on(b.floors@, b.nfloors()) + riding(b.elevators@, b.nelevators())
}

/// Changing one elevator's passengers changes the number riding by the
/// difference.
proof fn lemma_riding_change(es: Seq<Elevator>, fs: Seq<Elevator>, k: int, n: int)
    requires
        0 <= n <= es.len(),
        es.len() == fs.len(),
        forall|j: int| 0 <= j < es.len() && j != k ==> #[trigger] fs[j].passengers@.len() == es[j].passengers@.len(),
    ensures
        riding(fs, n) == riding(es, n) + (if 0 <= k < n { fs[k].passengers@.len() - es[k].passengers@.len() } else { 0 }),
    decreases n,
{
    if n > 0 {
        lemma_riding_change(es, fs, k, n - 1);
    }
}

/// Changing one floor's waiting people changes the number waiting by the
/// difference.
proof fn lemma_waiting_change(fs: Seq<Floor>, gs: Seq<Floor>, k: int, n: int)
    requires
        0 <= n <= fs.len(),
        fs.len() == gs.len(),
        forall|j: int| 0 <= j < fs.len() && j != k ==> #[trigger] gs[j].waiting() == fs[j].waiting(),
    ensures
        waiting_on(gs, n) == waiting_on(fs, n) + (if 0 <= k < n { gs[k].waiting() - fs[k].waiting() } else { 0 }),
    decreases n,
{
    if n > 0 {
        lemma_waiting_change(fs, gs, k, n - 1);
    }
}

/// Every passenger either stays or leaves.
proof fn lemma_split_len(ps: Seq<Person>, f: int)
    ensures
        staying(ps, f).len() + leaving(ps, f).len() == ps.len(),
    decreases ps.len(),
{
    reveal(Seq::filter);
    if ps.len() > 0 {
        lemma_split_len(ps.drop_last(), f);
    }
}

/// Moving the elevators neither adds nor removes anyone.
pub proof fn lemma_moving_keeps_people(b0: Building, b1: Building, dests: Seq<Option<usize>>, t: int)
    requires
        b0.moved_to(&b1, dests, t),
    ensures
        people_in(b1) == people_in(b0),
{
    assert forall|j: int| 0 <= j < b0.nelevators() implies #[trigger] b1.elevators@[j].passengers@.len()
        == b0.elevators@[j].passengers@.len() by {
        assert(b1.elevators@[j].passengers == b0.elevators@[j].passengers);
    }
    lemma_riding_change(b0.elevators@, b1.elevators@, -1, b0.nelevators());
}

/// When an elevator opens its doors, the people who leave it are gone from
/// the building; those who enter it from the floor are still counted.
pub proof fn lemma_doors_keep_people(b0: Building, b1: Building, e: int, f: int, t: int, s0: StatsModel, s1: StatsModel)
    requires
        0 <= e < b0.nelevators(),
        0 <= f < b0.nfloors(),
        b0.elevators@[e].passengers@.len() <= b0.elevators@[e].capacity,
        forall|g: int| 0 <= g < b0.nfloors() ==> #[trigger] b0.floors@[g].people@.len() == b0.nelevators(),
        forall|g: int| 0 <= g < b1.nfloors() ==> #[trigger] b1.floors@[g].people@.len() == b1.nelevators(),
        b0.doors_opened(&b1, e, f, t, s0, s1),
    ensures
        people_in(b1) == people_in(b0) - leaving(b0.elevators@[e].passengers@, f).len(),
{
    let ne = b0.nelevators();
    let o = b0.elevators@[e];
    let q = b0.floors@[f].people@[e]@;
    let kept = staying(o.passengers@, f);
    let room = o.capacity - kept.len();
    let k = if room < q.len() { room } else { q.len() as int };
    lemma_split_len(o.passengers@, f);
    assert(b1.elevators@[e].passengers@.len() == kept.len() + k);
    // Riding: only elevator `e` changes.
    assert forall|j: int| 0 <= j < ne && j != e implies #[trigger] b1.elevators@[j].passengers@.len()
        == b0.elevators@[j].passengers@.len() by {
        assert(b1.elevators@[j] == b0.elevators@[j]);
    }
    lemma_riding_change(b0.elevators@, b1.elevators@, e, ne);
    // Waiting: only the queue for `e` at floor `f` changes.
    let pf0 = b0.floors@[f].people@;
    let pf1 = b1.floors@[f].people@;
    assert(pf1 =~= pf0.update(e, pf1[e])) by {
        assert forall|j: int| 0 <= j < pf0.len() && j != e implies pf1[j] == pf0[j] by {
            assert(b1.floors@[f].people@[j] == b0.floors@[f].people@[j]);
        }
    }
    lemma_queued_update(pf0, e, pf1[e], pf0.len() as int);
    assert forall|g: int| 0 <= g < b0.nfloors() && g != f implies #[trigger] b1.floors@[g].waiting()
        == b0.floors@[g].waiting() by {
        let a = b0.floors@[g].people@;
        let c = b1.floors@[g].people@;
        assert forall|j: int| 0 <= j < a.len() implies c[j] == a[j] by {
            assert(b1.floors@[g].people@[j] == b0.floors@[g].people@[j]);
        }
        assert(c =~= a);
    }
    lemma_waiting_change(b0.floors@, b1.floors@, f, b0.nfloors());
}

/// A person who joins a queue adds one to the building.
pub proof fn lemma_queueing_adds_one(b0: Building, b1: Building, person: Person, e: int)
    requires
        0 <= person.src < b0.nfloors(),
        0 <= e < b0.floors@[person.src as int].people@.len(),
        b0.person_queued(&b1, person, e),
    ensures
        people_in(b1) == people_in(b0) + 1,
{
    let src = person.src as int;
    let pf0 = b0.floors@[src].people@;
    let pf1 = b1.floors@[src].people@;
    assert(pf1 =~= pf0.update(e, pf1[e]));
    lemma_queued_push(pf0, e, pf1[e], pf0.len() as int);
    assert forall|g: int| 0 <= g < b0.nfloors() && g != src implies #[trigger] b1.floors@[g].waiting()
        == b0.floors@[g].waiting() by {
        assert(b1.floors@[g] == b0.floors@[g]);
    }
    lemma_waiting_change(b0.floors@, b1.floors@, src, b0.nfloors());
}

/// An elevator reaching its destination takes out of the building exactly
/// the people who leave it there; everyone else is still counted.
pub proof fn lemma_arrival_people<P: Policy, T: Traffic>(s0: Snapshot<P, T>, s1: Snapshot<P, T>, e: int, t: int)
    requires
        s0.building.wf(),
        s1.building.wf(),
        s0.decision.fits(&s0.building),
        0 <= e < s0.building.nelevators(),
        s0.decision.dests@[e] is Some,
        s0.arrival_event(&s1, e, t),
    ensures
        people_in(s1.building) == people_in(s0.building) - leaving(
            s0.building.elevators@[e].passengers@,
            s0.decision.dests@[e]->0 as int,
        ).len(),
{
    let b0 = s0.building;
    let f = s0.decision.dests@[e]->0 as int;
    let m = choose|m: Building|
        #[trigger] b0.moved_to(&m, s0.decision.dests@, t) && {
            &&& m.prev_time == b0.prev_time
            &&& arrival_effect(m, s1.building, s0.policy, s1.policy, s0.decision, s1.decision, s0.stats, s1.stats, e, t)
            &&& s1.traffic == s0.traffic
        };
    lemma_moving_keeps_people(b0, m, s0.decision.dests@, t);
    let (a, dm) = choose|a: Building, dm: Decision|
        #![trigger m.doors_opened(&a, e, f, t, s0.stats, s1.stats), s0.policy.arrived(&s1.policy, &a, &dm, &s1.decision, e as usize)]
        {
            &&& m.doors_opened(&a, e, f, t, s0.stats, s1.stats)
            &&& dm.dests@ == s0.decision.dests@.update(e, None)
            &&& dm.waits@ == s0.decision.waits@
            &&& s0.policy.arrived(&s1.policy, &a, &dm, &s1.decision, e as usize)
            &&& s1.building.same_but_time(&a, t)
        };
    assert(b0.elevator_ok(b0.elevators@[e]));
    assert(m.elevators@[e].passengers == b0.elevators@[e].passengers);
    assert forall|g: int| 0 <= g < m.nfloors() implies #[trigger] m.floors@[g].people@.len() == m.nelevators() by {
        assert(b0.floor_ok(g));
    }
    assert forall|g: int| 0 <= g < a.nfloors() implies #[trigger] a.floors@[g].people@.len() == a.nelevators() by {
        assert(s1.building.floor_ok(g));
    }
    lemma_doors_keep_people(m, a, e, f, t, s0.stats, s1.stats);
}

/// A wait coming due changes nobody's place.
pub proof fn lemma_wait_keeps_people<P: Policy, T: Traffic>(s0: Snapshot<P, T>, s1: Snapshot<P, T>, w: int, t: int)
    requires
        s0.wait_event(&s1, w, t),
    ensures
        people_in(s1.building) == people_in(s0.building),
{
    let (m, dm) = choose|m: Building, dm: Decision|
        #![trigger s0.building.moved_to(&m, s0.decision.dests@, t), s0.policy.wait_handled(&s1.policy, &m, &dm, &s1.decision, w as usize)]
        {
            &&& s0.building.moved_to(&m, s0.decision.dests@, t)
            &&& m.prev_time == s0.building.prev_time
            &&& dm.waits@ == s0.decision.waits@.update(w, u64::MAX)
            &&& dm.dests@ == s0.decision.dests@
            &&& s0.policy.wait_handled(&s1.policy, &m, &dm, &s1.decision, w as usize)
            &&& s1.policy.inv(m.nfloors(), m.nelevators(), m.prev_time as int)
            &&& s1.decision.fits(&m)
            &&& s1.decision.waits_no_earlier(&dm)
            &&& s1.building.same_but_time(&m, t)
            &&& s1.traffic == s0.traffic
            &&& s1.stats == s0.stats
        };
    lemma_moving_keeps_people(s0.building, m, s0.decision.dests@, t);
}

/// A request adds its person to the building, unless the floor was full
/// and the request was dropped.
pub proof fn lemma_request_people<P: Policy, T: Traffic>(s0: Snapshot<P, T>, s1: Snapshot<P, T>, t: int)
    requires
        s0.building.wf(),
        s0.request_event(&s1, t),
    ensures
        exists|r: (usize, usize)|
            #[trigger] s0.traffic.made(&s1.traffic, t, r) && people_in(s1.building) == people_in(s0.building) + (
            if s0.building.floors@[r.0 as int].waiting() < MAX_WAITING {
                1int
            } else {
                0int
            }),
{
    let b0 = s0.building;
    let m = choose|m: Building|
        #[trigger] b0.moved_to(&m, s0.decision.dests@, t) && {
            &&& m.prev_time == b0.prev_time
            &&& request_effect(m, s1.building, s0.policy, s1.policy, s0.decision, s1.decision, s0.traffic, s1.traffic, t)
            &&& s1.stats == s0.stats
        };
    lemma_moving_keeps_people(b0, m, s0.decision.dests@, t);
    let r = choose|r: (usize, usize)|
        #[trigger] s0.traffic.made(&s1.traffic, t, r) && {
            &&& r.0 < m.nfloors()
            &&& r.1 < m.nfloors()
            &&& r.0 != r.1
            &&& s1.building.prev_time == t
            &&& s1.building.prev_req_time == t
            &&& if m.floors@[r.0 as int].waiting() < MAX_WAITING {
                assigned(m, s1.building, s0.policy, s1.policy, s0.decision, s1.decision, requester(r, t))
            } else {
                &&& s1.building.floors == m.floors
                &&& s1.building.elevators == m.elevators
                &&& s1.building.time_per_floor == m.time_per_floor
                &&& s1.building.time_per_stop == m.time_per_stop
                &&& s1.policy == s0.policy
                &&& s1.decision == s0.decision
            }
        };
    if m.floors@[r.0 as int].waiting() < MAX_WAITING {
        let person = requester(r, t);
        let e = choose|e: usize|
            #[trigger] s0.policy.requested(&s1.policy, &m, &s0.decision, &s1.decision, &person, e) && e
                < m.nelevators() && m.person_queued(&s1.building, person, e as int);
        assert(b0.floor_ok(r.0 as int));
        lemma_queueing_adds_one(m, s1.building, person, e as int);
    }
    assert(s0.traffic.made(&s1.traffic, t, r));
}

/// The state a run starts from.
pub open spec fn start_of<P, T>(b: Building, p: P, d: Decision, t: T, s: StatsModel) -> Snapshot<P, T> {
    Snapshot { building: b, policy: p, decision: d, traffic: t, stats: s }
}

/// A run with nothing due by `until` handles no event: the policy, its
/// commands and the traffic stay as they were, the elevators only move on
/// to `until`, and the statistics only tick.
pub proof fn lemma_quiet_run<P: Policy, T: Traffic>(
    b0: Building,
    p0: P,
    d0: Decision,
    t0: T,
    s0: StatsModel,
    b1: Building,
    p1: P,
    d1: Decision,
    t1: T,
    s1: StatsModel,
    until: int,
)
    requires
        ran(b0, p0, d0, t0, s0, b1, p1, d1, t1, s1, until),
        start_of(b0, p0, d0, t0, s0).quiet(until),
    ensures
        p1 == p0,
        d1 == d0,
        t1 == t0,
        s1 == s0.tick(until),
        b0.moved_to(&b1, d0.dests@, until),
        b1.prev_time == until,
{
    let trace = choose|trace: Seq<Snapshot<P, T>>| #[trigger] ran_by(trace, b0, p0, d0, t0, s0, b1, p1, d1, t1, s1, until);
    let s = trace[0];
    assert(s == start_of(b0, p0, d0, t0, s0));
    if trace.len() > 1 {
        assert(event_at(trace, 0, until));
        let next = trace[1];
        let (e, w) = choose|e: int, w: int|
            #![trigger s.first_arrival(e), s.first_wait(w)]
            {
                &&& s.building.prev_time < until
                &&& s.first_arrival(e)
                &&& s.first_wait(w)
                &&& ({
                    let a = s.arrival_of(e);
                    let wt = s.decision.waits@[w] as int;
                    let r = s.request_time();
                    if a <= wt && a <= r {
                        a <= until && s.arrival_event(&next, e, a)
                    } else if wt <= r {
                        wt <= until && s.wait_event(&next, w, wt)
                    } else {
                        r <= until && s.request_event(&next, r)
                    }
                })
            };
        assert(s.arrival_of(e) > until);
        assert(s.decision.waits@[w] > until);
        assert(false);
    }
}

/// With no destination, no wait command and a traffic that never asks,
/// nothing is due by any time before `u64::MAX`.
pub proof fn lemma_nothing_due<P: Policy, T: Traffic>(s: Snapshot<P, T>, until: int)
    requires
        until < u64::MAX,
        forall|e: int| 0 <= e < s.decision.dests@.len() ==> #[trigger] s.decision.dests@[e] is None,
        forall|w: int| 0 <= w < s.decision.waits@.len() ==> #[trigger] s.decision.waits@[w] == u64::MAX,
        s.decision.dests@.len() == s.building.nelevators(),
        s.traffic.spec_when() == u64::MAX,
    ensures
        s.quiet(until),
{
    assert forall|j: int| 0 <= j < s.building.nelevators() implies #[trigger] s.arrival_of(j) > until by {
        assert(s.decision.dests@[j] is None);
    }
    assert forall|j: int| 0 <= j < s.decision.waits@.len() implies #[trigger] s.decision.waits@[j] > until by {
        assert(s.decision.waits@[j] == u64::MAX);
    }
}

impl<P: Policy, T: Traffic> Snapshot<P, T> {
    /// The earliest event due from this state is an arrival.
    pub open spec fn arrival_first(&self) -> bool {
        let e = choose|e: int| self.first_arrival(e);
        let w = choose|w: int| self.first_wait(w);
        self.arrival_of(e) <= self.decision.waits@[w] && self.arrival_of(e) <= self.request_time()
    }

    /// The earliest event due from this state is a request.
    pub open spec fn request_first(&self) -> bool {
        let w = choose|w: int| self.first_wait(w);
        &&& !self.arrival_first()
        &&& self.request_time() < self.decision.waits@[w]
    }

    /// The request made from this state on to `next` was not dropped: its
    /// person waits in a queue of `next`.
    pub open spec fn request_queued(&self, next: &Self) -> bool {
        let t = self.request_time();
        exists|r: (usize, usize), m: Building|
            #![trigger self.traffic.made(&next.traffic, t, r), self.building.moved_to(&m, self.decision.dests@, t)]
            {
                &&& self.building.moved_to(&m, self.decision.dests@, t)
                &&& self.traffic.made(&next.traffic, t, r)
                &&& r.0 < self.building.nfloors()
                &&& m.floors@[r.0 as int].waiting() < MAX_WAITING
                &&& assigned(m, next.building, self.policy, next.policy, self.decision, next.decision, requester(r, t))
            }
    }

    /// How many people the event from this state takes out of the building:
    /// those who leave the elevator that arrives.
    pub open spec fn leavers(&self) -> int {
        let e = choose|e: int| self.first_arrival(e);
        if self.arrival_first() {
            leaving(self.building.elevators@[e].passengers@, self.decision.dests@[e]->0 as int).len() as int
        } else {
            0
        }
    }

    /// How many people the event from this state on to `next` brings into
    /// the building: one for a request that is not dropped.
    pub open spec fn joiners(&self, next: &Self) -> int {
        if self.request_first() && self.request_queued(next) {
            1
        } else {
            0
        }
    }
}

/// People who left elevators in the first `n` events of `trace`.
pub open spec fn run_leavers<P: Policy, T: Traffic>(trace: Seq<Snapshot<P, T>>, n: int) -> int
    decreases n,
{
    if n <= 0 {
        0
    } else {
        run_leavers(trace, n - 1) + trace[n - 1].leavers()
    }
}

/// People whose requests were queued in the first `n` events of `trace`.
pub open spec fn run_joiners<P: Policy, T: Traffic>(trace: Seq<Snapshot<P, T>>, n: int) -> int
    decreases n,
{
    if n <= 0 {
        0
    } else {
        run_joiners(trace, n - 1) + trace[n - 1].joiners(&trace[n])
    }
}

/// Only one elevator arrives first.
proof fn lemma_first_arrival_unique<P: Policy, T: Traffic>(s: Snapshot<P, T>, e1: int, e2: int)
    requires
        s.first_arrival(e1),
        s.first_arrival(e2),
    ensures
        e1 == e2,
{
    if e1 < e2 {
        assert(s.arrival_of(e2) < s.arrival_of(e1));
    } else if e2 < e1 {
        assert(s.arrival_of(e1) < s.arrival_of(e2));
    }
}

/// Only one wait command comes due first.
proof fn lemma_first_wait_unique<P: Policy, T: Traffic>(s: Snapshot<P, T>, w1: int, w2: int)
    requires
        s.first_wait(w1),
        s.first_wait(w2),
    ensures
        w1 == w2,
{
    if w1 < w2 {
        assert(s.decision.waits@[w2] < s.decision.waits@[w1]);
    } else if w2 < w1 {
        assert(s.decision.waits@[w1] < s.decision.waits@[w2]);
    }
}

/// An event neither loses nor makes up people: the building holds those it
/// held, plus the person of a request that was not dropped, minus those who
/// left an arriving elevator.
pub proof fn lemma_event_people<P: Policy, T: Traffic>(s0: Snapshot<P, T>, s1: Snapshot<P, T>, until: int)
    requires
        s0.sound(),
        s1.sound(),
        s0.event(&s1, until),
        until < u64::MAX,
    ensures
        people_in(s1.building) == people_in(s0.building) + s0.joiners(&s1) - s0.leavers(),
{
    let (e, w) = choose|e: int, w: int|
        #![trigger s0.first_arrival(e), s0.first_wait(w)]
        {
            &&& s0.building.prev_time < until
            &&& s0.first_arrival(e)
            &&& s0.first_wait(w)
            &&& ({
                let a = s0.arrival_of(e);
                let wt = s0.decision.waits@[w] as int;
                let r = s0.request_time();
                if a <= wt && a <= r {
                    a <= until && s0.arrival_event(&s1, e, a)
                } else if wt <= r {
                    wt <= until && s0.wait_event(&s1, w, wt)
                } else {
                    r <= until && s0.request_event(&s1, r)
                }
            })
        };
    lemma_first_arrival_unique(s0, e, choose|e: int| s0.first_arrival(e));
    lemma_first_wait_unique(s0, w, choose|w: int| s0.first_wait(w));
    let a = s0.arrival_of(e);
    let wt = s0.decision.waits@[w] as int;
    let t = s0.request_time();
    if a <= wt && a <= t {
        assert(s0.decision.dests@[e] is Some);
        lemma_arrival_people(s0, s1, e, a);
    } else if wt <= t {
        lemma_wait_keeps_people(s0, s1, w, wt);
    } else {
        let b0 = s0.building;
        let m = choose|m: Building|
            #[trigger] b0.moved_to(&m, s0.decision.dests@, t) && {
                &&& m.prev_time == b0.prev_time
                &&& request_effect(m, s1.building, s0.policy, s1.policy, s0.decision, s1.decision, s0.traffic, s1.traffic, t)
                &&& s1.stats == s0.stats
            };
        lemma_moving_keeps_people(b0, m, s0.decision.dests@, t);
        let r = choose|r: (usize, usize)|
            #[trigger] s0.traffic.made(&s1.traffic, t, r) && {
                &&& r.0 < m.nfloors()
                &&& r.1 < m.nfloors()
                &&& r.0 != r.1
                &&& s1.building.prev_time == t
                &&& s1.building.prev_req_time == t
                &&& if m.floors@[r.0 as int].waiting() < MAX_WAITING {
                    assigned(m, s1.building, s0.policy, s1.policy, s0.decision, s1.decision, requester(r, t))
                } else {
                    &&& s1.building.floors == m.floors
                    &&& s1.building.elevators == m.elevators
                    &&& s1.building.time_per_floor == m.time_per_floor
                    &&& s1.building.time_per_stop == m.time_per_stop
                    &&& s1.policy == s0.policy
                    &&& s1.decision == s0.decision
                }
            };
        if m.floors@[r.0 as int].waiting() < MAX_WAITING {
            let person = requester(r, t);
            let k = choose|k: usize|
                #[trigger] s0.policy.requested(&s1.policy, &m, &s0.decision, &s1.decision, &person, k) && k
                    < m.nelevators() && m.person_queued(&s1.building, person, k as int);
            assert(b0.floor_ok(r.0 as int));
            lemma_queueing_adds_one(m, s1.building, person, k as int);
            assert(s0.request_queued(&s1));
        } else {
            if s0.request_queued(&s1) {
                let (r2, m2) = choose|r2: (usize, usize), m2: Building|
                    #![trigger s0.traffic.made(&s1.traffic, t, r2), s0.building.moved_to(&m2, s0.decision.dests@, t)]
                    {
                        &&& s0.building.moved_to(&m2, s0.decision.dests@, t)
                        &&& s0.traffic.made(&s1.traffic, t, r2)
                        &&& r2.0 < s0.building.nfloors()
                        &&& m2.floors@[r2.0 as int].waiting() < MAX_WAITING
                        &&& assigned(m2, s1.building, s0.policy, s1.policy, s0.decision, s1.decision, requester(r2, t))
                    };
                let p2 = requester(r2, t);
                let k = choose|k: usize|
                    #[trigger] s0.policy.requested(&s1.policy, &m2, &s0.decision, &s1.decision, &p2, k) && k
                        < m2.nelevators() && m2.person_queued(&s1.building, p2, k as int);
                assert(m2.floors == s1.building.floors);
                assert(s1.building.floors@[r2.0 as int].people@[k as int]@.len()
                    == m2.floors@[r2.0 as int].people@[k as int]@.len() + 1);
            }
            assert(people_in(s1.building) == people_in(m));
        }
    }
}

/// Over a whole run, people are neither lost nor made up: the building ends
/// with the people it started with, plus those whose requests were queued,
/// minus those who left an elevator at their floor.
pub proof fn lemma_run_people<P: Policy, T: Traffic>(
    trace: Seq<Snapshot<P, T>>,
    b0: Building,
    p0: P,
    d0: Decision,
    t0: T,
    s0: StatsModel,
    b1: Building,
    p1: P,
    d1: Decision,
    t1: T,
    s1: StatsModel,
    until: int,
)
    requires
        ran_by(trace, b0, p0, d0, t0, s0, b1, p1, d1, t1, s1, until),
        until < u64::MAX,
    ensures
        people_in(b1) == people_in(b0) + run_joiners(trace, trace.len() - 1) - run_leavers(trace, trace.len() - 1),
{
    lemma_run_people_prefix(trace, until, trace.len() - 1);
    let last = trace.last();
    lemma_moving_keeps_people(last.building, b1, last.decision.dests@, until);
}

/// The count of people after the first `k` events of a run.
proof fn lemma_run_people_prefix<P: Policy, T: Traffic>(trace: Seq<Snapshot<P, T>>, until: int, k: int)
    requires
        0 <= k < trace.len(),
        forall|i: int| 0 <= i < trace.len() - 1 ==> #[trigger] event_at(trace, i, until),
        forall|i: int| 0 <= i < trace.len() ==> #[trigger] trace[i].sound(),
        until < u64::MAX,
    ensures
        people_in(trace[k].building) == people_in(trace[0].building) + run_joiners(trace, k) - run_leavers(trace, k),
    decreases k,
{
    if k > 0 {
        lemma_run_people_prefix(trace, until, k - 1);
        assert(event_at(trace, k - 1, until));
        assert(trace[k - 1].sound());
        assert(trace[k].sound());
        lemma_event_people(trace[k - 1], trace[k], until);
    }
}

} // verus!
