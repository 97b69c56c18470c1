use crate::building::TIME_LIMIT;
use vstd::prelude::*;

pub mod random;
pub mod spiky;

pub use random::Random;
pub use spiky::{Phase, Spiky, SpikyView};

verus! {

/// A traffic pattern: when requests are made, and from where to where.
pub trait Traffic {
    /// Every request this traffic makes has both floors below `floors`.
    spec fn fits_floors(&self, floors: int) -> bool;

    /// The traffic's state is consistent for calls at time `now` or later.
    spec fn ready(&self, now: int) -> bool;

    /// What `when` returns.
    spec fn spec_when(&self) -> u64;

    /// The traffic can make a request now.
    spec fn can_next(&self) -> bool;

    /// The traffic can make requests forever.
    spec fn endless(&self) -> bool;

    /// How many more requests the traffic can make at time `now` with no
    /// time between them: each request followed by a zero delay lowers it.
    spec fn zero_run(&self, now: int) -> nat;

    proof fn lemma_ready_later(&self, t1: int, t2: int)
        requires
            self.ready(t1),
            t1 <= t2,
        ensures
            self.ready(t2),
    ;

    /// A traffic that names a finite time until its next request can make it.
    proof fn lemma_when_finite(&self, now: int)
        requires
            self.ready(now),
            self.spec_when() < u64::MAX,
        ensures
            self.can_next(),
    ;

    /// An endless traffic can always make a request.
    proof fn lemma_endless(&self, now: int)
        requires
            self.ready(now),
            self.endless(),
        ensures
            self.can_next(),
    ;

    /// Returns the duration until the next request.
    fn when(&self) -> (w: u64)
        requires
            exists|t: int| #[trigger] self.ready(t),
        ensures
            w == self.spec_when(),
    ;

    /// `after` is this traffic once it has made the request `r` at `time`.
    spec fn made(&self, after: &Self, time: int, r: (usize, usize)) -> bool;

    /// Returns the source and destination floors of the next request.
    /// These floors are not equal and lie below the number of floors of the
    /// building.
    fn next(&mut self, time: u64) -> (r: (usize, usize))
        requires
            old(self).ready(time as int),
            old(self).can_next(),
            time <= TIME_LIMIT,
        ensures
            final(self).ready(time as int),
            forall|f: int| #[trigger] old(self).fits_floors(f) ==> final(self).fits_floors(f) && r.0 < f && r.1 < f,
            r.0 != r.1,
            old(self).endless() ==> final(self).endless(),
            final(self).spec_when() == 0 ==> final(self).zero_run(time as int) < old(self).zero_run(time as int),
            old(self).made(final(self), time as int, r),
    ;

    /// The name of the traffic pattern.
    spec fn spec_name(&self) -> Seq<char>;

    /// Returns the name of the traffic pattern.
    fn name(&self) -> (r: &'static str)
        ensures
            r@ == self.spec_name(),
    ;
}

/// No traffic at all.
pub struct Nothing;

impl Traffic for Nothing {
    /// `Nothing` never makes a request.
    open spec fn made(&self, after: &Self, time: int, r: (usize, usize)) -> bool {
        false
    }

    open spec fn spec_name(&self) -> Seq<char> {
        "Nothing"@
    }

    open spec fn fits_floors(&self, floors: int) -> bool {
        true
    }

    open spec fn ready(&self, now: int) -> bool {
        true
    }

    open spec fn spec_when(&self) -> u64 {
        u64::MAX
    }

    open spec fn can_next(&self) -> bool {
        false
    }

    open spec fn endless(&self) -> bool {
        false
    }

    open spec fn zero_run(&self, now: int) -> nat {
        0
    }

    proof fn lemma_ready_later(&self, t1: int, t2: int) {
    }

    proof fn lemma_when_finite(&self, now: int) {
    }

    proof fn lemma_endless(&self, now: int) {
    }

    fn when(&self) -> (w: u64) {
        u64::MAX
    }

    /// Never called: `Nothing` never names a time for a request.
    fn next(&mut self, time: u64) -> (r: (usize, usize)) {
        (0, 1)
    }

    fn name(&self) -> (r: &'static str)
        ensures
            r@ == "Nothing"@,
    {
        "Nothing"
    }
}

/// Cycles between traffics, each for its duration.
///
/// `Cycle` waits to generate at least one request from `between[cur]`, even
/// if `between[cur].when()` exceeds `durations[cur]`.
pub struct Cycle<T> {
    pub(crate) between: Vec<T>,
    pub(crate) durations: Vec<u64>,
    pub(crate) cur: usize,
    pub(crate) prev_time: u64,
}

impl<T: Traffic> Cycle<T> {
    pub closed spec fn parts(&self) -> Seq<T> {
        self.between@
    }

    pub closed spec fn spec_durations(&self) -> Seq<u64> {
        self.durations@
    }

    /// Index of the traffic currently in use.
    pub closed spec fn current(&self) -> int {
        self.cur as int
    }

    /// Time at which the current traffic was switched to.
    pub closed spec fn switched_at(&self) -> int {
        self.prev_time as int
    }

    pub fn new(between: Vec<T>, durations: Vec<u64>) -> (c: Self)
        requires
            between@.len() == durations@.len(),
        ensures
            c.parts() == between@,
            c.spec_durations() == durations@,
            c.current() == 0,
            c.switched_at() == 0,
            c.ready(0) <==> (between@.len() > 0 && forall|i: int|
                0 <= i < between@.len() ==> (#[trigger] between@[i]).ready(0)),
            forall|f: int|
                #[trigger] c.fits_floors(f) <==> forall|i: int|
                    0 <= i < between@.len() ==> (#[trigger] between@[i]).fits_floors(f),
            c.endless() <==> forall|i: int| 0 <= i < between@.len() ==> (#[trigger] between@[i]).endless(),
    {
        let c = Cycle { between, durations, cur: 0, prev_time: 0 };
        proof {
            assert forall|f: int| #[trigger] c.fits_floors(f) <==> forall|i: int|
                0 <= i < c.between@.len() ==> (#[trigger] c.between@[i]).fits_floors(f) by {}
            assert(c.endless() <==> forall|i: int| 0 <= i < c.between@.len() ==> (#[trigger] c.between@[i]).endless());
        }
        c
    }

    /// Number of traffics cycled through.
    pub fn len(&self) -> (n: usize)
        ensures
            n == self.parts().len(),
    {
        self.between.len()
    }

    /// Access to one of the traffics, to adjust it.
    pub fn part_mut(&mut self, i: usize) -> (t: &mut T)
        requires
            i < old(self).parts().len(),
        ensures
            *t == old(self).parts()[i as int],
            final(self).parts() == old(self).parts().update(i as int, *final(t)),
            final(self).spec_durations() == old(self).spec_durations(),
            final(self).current() == old(self).current(),
            final(self).switched_at() == old(self).switched_at(),
    {
        &mut self.between[i]
    }
}

impl<T: Traffic> Traffic for Cycle<T> {
    /// The current traffic made the request; the others are unchanged; the
    /// next traffic (in turn, wrapping around) becomes current as of `time`
    /// once more than the current one's duration has passed since the last
    /// switch.
    open spec fn made(&self, after: &Self, time: int, r: (usize, usize)) -> bool {
        let c = self.current();
        let due = time - self.switched_at() > self.spec_durations()[c];
        &&& after.spec_durations() == self.spec_durations()
        &&& after.parts().len() == self.parts().len()
        &&& self.parts()[c].made(&after.parts()[c], time, r)
        &&& forall|i: int| 0 <= i < self.parts().len() && i != c ==> #[trigger] after.parts()[i] == self.parts()[i]
        &&& after.current() == if due { (c + 1) % (self.parts().len() as int) } else { c }
        &&& after.switched_at() == if due { time } else { self.switched_at() }
    }

    open spec fn spec_name(&self) -> Seq<char> {
        "Cycle"@
    }

    closed spec fn fits_floors(&self, floors: int) -> bool {
        forall|i: int| 0 <= i < self.between@.len() ==> (#[trigger] self.between@[i]).fits_floors(floors)
    }

    closed spec fn ready(&self, now: int) -> bool {
        &&& self.between@.len() == self.durations@.len()
        &&& self.between@.len() > 0
        &&& self.cur < self.between@.len()
        &&& self.prev_time <= now
        &&& forall|i: int| 0 <= i < self.between@.len() ==> (#[trigger] self.between@[i]).ready(now)
    }

    open spec fn spec_when(&self) -> u64 {
        self.parts()[self.current()].spec_when()
    }

    closed spec fn can_next(&self) -> bool {
        self.between@[self.cur as int].can_next()
    }

    closed spec fn endless(&self) -> bool {
        forall|i: int| 0 <= i < self.between@.len() ==> (#[trigger] self.between@[i]).endless()
    }

    /// The current traffic's, plus, when a switch is due at `now`, one for
    /// the switch and the next traffic's.
    closed spec fn zero_run(&self, now: int) -> nat {
        let c = self.cur as int;
        let n = self.between@.len() as int;
        self.between@[c].zero_run(now) + if now - self.prev_time > self.durations@[c] {
            1 + self.between@[(c + 1) % n].zero_run(now)
        } else {
            0
        }
    }

    proof fn lemma_ready_later(&self, t1: int, t2: int) {
        assert forall|i: int| 0 <= i < self.between@.len() implies (#[trigger] self.between@[i]).ready(t2) by {
            self.between@[i].lemma_ready_later(t1, t2);
        }
    }

    proof fn lemma_when_finite(&self, now: int) {
        self.between@[self.cur as int].lemma_when_finite(now);
    }

    proof fn lemma_endless(&self, now: int) {
        self.between@[self.cur as int].lemma_endless(now);
    }

    fn when(&self) -> (w: u64) {
        let ghost t = choose|t: int| #[trigger] self.ready(t);
        assert(self.between@[self.cur as int].ready(t));
        self.between[self.cur].when()
    }

    /// The current traffic makes the request; then, if more than its
    /// duration has passed since the last switch, the next traffic (in
    /// turn, wrapping around) becomes current as of `time`.
    fn next(&mut self, time: u64) -> (r: (usize, usize)) {
        let ghost old_parts = self.between@;
        let cur = self.cur;
        let res = self.between[cur].next(time);
        proof {
            assert forall|i: int| 0 <= i < self.between@.len() implies (#[trigger] self.between@[i]).ready(time as int) by {
                if i != cur {
                    assert(self.between@[i] == old_parts[i]);
                }
            }
        }
        assert(self.between@.len() == old_parts.len());
        assert(cur < self.durations@.len());
        let n = self.durations.len();
        let since_last_cycle = time - self.prev_time;
        if since_last_cycle > self.durations[cur] {
            self.prev_time = time;
            self.cur = (cur + 1) % n;
            proof {
                let c1 = self.cur as int;
                if c1 != cur {
                    assert(self.between@[c1] == old_parts[c1]);
                }
            }
        }
        res
    }

    fn name(&self) -> (r: &'static str)
        ensures
            r@ == "Cycle"@,
    {
        "Cycle"
    }
}


/// `pre` traffic up to time `remaining`, then `post` traffic: a request
/// that falls due before `remaining` comes from `pre`, one due at
/// `remaining` or later from `post`, whose first request comes its delay
/// after `remaining`. A part that never asks leaves the requests to the
/// other.
pub struct Then<A, B> {
    pub(crate) pre: A,
    pub(crate) post: B,
    pub(crate) remaining: u64,
    pub(crate) last: u64,
    pub(crate) started: bool,
}

impl<A: Traffic, B: Traffic> Then<A, B> {
    /// The traffic before the switch.
    pub closed spec fn pre_part(&self) -> A {
        self.pre
    }

    /// The traffic after the switch.
    pub closed spec fn post_part(&self) -> B {
        self.post
    }

    /// The time of the switch.
    pub closed spec fn deadline(&self) -> int {
        self.remaining as int
    }

    /// The time of the last request; 0 before the first.
    pub closed spec fn last_request(&self) -> int {
        self.last as int
    }

    /// Whether `post` has taken over.
    pub closed spec fn started(&self) -> bool {
        self.started
    }

    /// Time left before the switch, counted from the last request.
    pub open spec fn left(&self) -> int {
        if self.last_request() <= self.deadline() { self.deadline() - self.last_request() } else { 0 }
    }

    /// A request at `time` is `post`'s: the switch time has come, or `pre`
    /// never asks; and `post` does ask.
    pub open spec fn hands_over(&self, time: int) -> bool {
        &&& self.post_part().spec_when() < u64::MAX
        &&& time >= self.deadline() || self.pre_part().spec_when() == u64::MAX
    }

    pub fn new(remaining: u64, pre: A, post: B) -> (t: Self)
        ensures
            t.pre_part() == pre,
            t.post_part() == post,
            t.deadline() == remaining,
            t.last_request() == 0,
            !t.started(),
            t.ready(0) <==> pre.ready(0) && post.ready(0),
            forall|f: int| #[trigger] t.fits_floors(f) <==> pre.fits_floors(f) && post.fits_floors(f),
            t.endless() <==> pre.endless() && post.endless(),
    {
        Then { pre, post, remaining, last: 0, started: false }
    }
}

impl<A: Traffic, B: Traffic> Traffic for Then<A, B> {
    /// The last request is at `time`; `post` made it and has taken over if
    /// it had already or the request is its; otherwise `pre` made it.
    open spec fn made(&self, after: &Self, time: int, r: (usize, usize)) -> bool {
        &&& after.deadline() == self.deadline()
        &&& after.last_request() == time
        &&& if self.started() || self.hands_over(time) {
            &&& after.started()
            &&& self.post_part().made(&after.post_part(), time, r)
            &&& after.pre_part() == self.pre_part()
        } else {
            &&& !after.started()
            &&& self.pre_part().made(&after.pre_part(), time, r)
            &&& after.post_part() == self.post_part()
        }
    }

    open spec fn spec_name(&self) -> Seq<char> {
        "Then"@
    }

    open spec fn fits_floors(&self, floors: int) -> bool {
        self.pre_part().fits_floors(floors) && self.post_part().fits_floors(floors)
    }

    open spec fn ready(&self, now: int) -> bool {
        &&& self.pre_part().ready(now)
        &&& self.post_part().ready(now)
        &&& self.last_request() <= now
    }

    /// Once `post` has taken over, its delay. Before, `pre`'s delay if its
    /// request falls before the switch; otherwise the time left before the
    /// switch plus `post`'s delay.
    open spec fn spec_when(&self) -> u64 {
        let pw = self.pre_part().spec_when();
        let qw = self.post_part().spec_when();
        if self.started() {
            qw
        } else if pw < self.left() {
            pw
        } else if self.left() + qw > u64::MAX {
            u64::MAX
        } else {
            (self.left() + qw) as u64
        }
    }

    open spec fn can_next(&self) -> bool {
        let pw = self.pre_part().spec_when();
        let qw = self.post_part().spec_when();
        if self.started() {
            self.post_part().can_next()
        } else {
            &&& qw < u64::MAX ==> self.post_part().can_next()
            &&& pw < u64::MAX || qw == u64::MAX ==> self.pre_part().can_next()
        }
    }

    open spec fn endless(&self) -> bool {
        if self.started() {
            self.post_part().endless()
        } else {
            self.pre_part().endless() && self.post_part().endless()
        }
    }

    /// `post`'s once it has taken over; before, both parts' and one for the
    /// switch.
    open spec fn zero_run(&self, now: int) -> nat {
        if self.started() {
            self.post_part().zero_run(now)
        } else {
            self.pre_part().zero_run(now) + self.post_part().zero_run(now) + 1
        }
    }

    proof fn lemma_ready_later(&self, t1: int, t2: int) {
        self.pre.lemma_ready_later(t1, t2);
        self.post.lemma_ready_later(t1, t2);
    }

    proof fn lemma_when_finite(&self, now: int) {
        if self.post.spec_when() < u64::MAX {
            self.post.lemma_when_finite(now);
        }
        if self.pre.spec_when() < u64::MAX {
            self.pre.lemma_when_finite(now);
        }
    }

    proof fn lemma_endless(&self, now: int) {
        self.post.lemma_endless(now);
        if !self.started {
            self.pre.lemma_endless(now);
        }
    }

    fn when(&self) -> (w: u64) {
        let ghost t = choose|t: int| #[trigger] self.ready(t);
        assert(self.post.ready(t));
        assert(self.pre.ready(t));
        if self.started {
            return self.post.when();
        }
        let left = if self.last <= self.remaining { self.remaining - self.last } else { 0 };
        let pw = self.pre.when();
        if pw < left {
            pw
        } else {
            let qw = self.post.when();
            if qw > u64::MAX - left {
                u64::MAX
            } else {
                left + qw
            }
        }
    }

    /// `post` makes the request if it has taken over or the request is its,
    /// and takes over; otherwise `pre` makes it.
    fn next(&mut self, time: u64) -> (r: (usize, usize)) {
        let ghost old_self = *self;
        assert(self.pre.ready(time as int));
        assert(self.post.ready(time as int));
        let to_post = if self.started {
            true
        } else {
            let qw = self.post.when();
            qw < u64::MAX && (time >= self.remaining || self.pre.when() == u64::MAX)
        };
        self.last = time;
        let r = if to_post {
            self.started = true;
            self.post.next(time)
        } else {
            self.pre.next(time)
        };
        proof {
            assert forall|f: int| #[trigger] old_self.fits_floors(f) implies self.fits_floors(f) && r.0 < f && r.1 < f by {
                if to_post {
                    assert(old_self.post.fits_floors(f));
                } else {
                    assert(old_self.pre.fits_floors(f));
                }
            }
        }
        r
    }

    fn name(&self) -> (r: &'static str)
        ensures
            r@ == "Then"@,
    {
        "Then"
    }
}

/// Traffic for a duration, then no traffic.
pub struct Duration<T> {
    pub(crate) inner: Then<T, Nothing>,
}

impl<T: Traffic> Duration<T> {
    pub closed spec fn switch(&self) -> Then<T, Nothing> {
        self.inner
    }

    pub fn new(remaining: u64, inner: T) -> (d: Self)
        ensures
            d.switch().pre_part() == inner,
            d.switch().deadline() == remaining,
            d.switch().last_request() == 0,
            !d.switch().started(),
            d.ready(0) <==> inner.ready(0),
            forall|f: int| #[trigger] d.fits_floors(f) <==> inner.fits_floors(f),
            !d.endless(),
            d.spec_when() == if inner.spec_when() < remaining { inner.spec_when() } else { u64::MAX },
    {
        let t = Then::new(remaining, inner, Nothing);
        assert(forall|f: int| Nothing.fits_floors(f));
        Duration { inner: t }
    }
}

impl<T: Traffic> Traffic for Duration<T> {
    open spec fn made(&self, after: &Self, time: int, r: (usize, usize)) -> bool {
        self.switch().made(&after.switch(), time, r)
    }

    open spec fn spec_name(&self) -> Seq<char> {
        "Duration"@
    }

    open spec fn fits_floors(&self, floors: int) -> bool {
        self.switch().fits_floors(floors)
    }

    open spec fn ready(&self, now: int) -> bool {
        self.switch().ready(now)
    }

    open spec fn spec_when(&self) -> u64 {
        self.switch().spec_when()
    }

    open spec fn can_next(&self) -> bool {
        self.switch().can_next()
    }

    open spec fn endless(&self) -> bool {
        self.switch().endless()
    }

    open spec fn zero_run(&self, now: int) -> nat {
        self.switch().zero_run(now)
    }

    proof fn lemma_ready_later(&self, t1: int, t2: int) {
        self.inner.lemma_ready_later(t1, t2);
    }

    proof fn lemma_when_finite(&self, now: int) {
        self.inner.lemma_when_finite(now);
    }

    proof fn lemma_endless(&self, now: int) {
        self.inner.lemma_endless(now);
    }

    fn when(&self) -> (w: u64) {
        let ghost t = choose|t: int| #[trigger] self.ready(t);
        assert(self.inner.ready(t));
        self.inner.when()
    }

    /// The traffic makes the request; a request of it that would fall at or
    /// after the time is never due.
    fn next(&mut self, time: u64) -> (r: (usize, usize)) {
        self.inner.next(time)
    }

    fn name(&self) -> (r: &'static str)
        ensures
            r@ == "Duration"@,
    {
        "Duration"
    }
}

/// No traffic for a duration, then the given traffic.
pub struct Delay<T> {
    pub(crate) inner: Then<Nothing, T>,
}

impl<T: Traffic> Delay<T> {
    pub closed spec fn switch(&self) -> Then<Nothing, T> {
        self.inner
    }

    pub fn new(remaining: u64, inner: T) -> (d: Self)
        ensures
            d.switch().post_part() == inner,
            d.switch().deadline() == remaining,
            d.switch().last_request() == 0,
            !d.switch().started(),
            d.ready(0) <==> inner.ready(0),
            forall|f: int| #[trigger] d.fits_floors(f) <==> inner.fits_floors(f),
            !d.endless(),
            d.spec_when() == if remaining + inner.spec_when() > u64::MAX {
                u64::MAX
            } else {
                (remaining + inner.spec_when()) as u64
            },
    {
        let t = Then::new(remaining, Nothing, inner);
        assert(forall|f: int| Nothing.fits_floors(f));
        Delay { inner: t }
    }
}

impl<T: Traffic> Traffic for Delay<T> {
    open spec fn made(&self, after: &Self, time: int, r: (usize, usize)) -> bool {
        self.switch().made(&after.switch(), time, r)
    }

    open spec fn spec_name(&self) -> Seq<char> {
        "Delay"@
    }

    open spec fn fits_floors(&self, floors: int) -> bool {
        self.switch().fits_floors(floors)
    }

    open spec fn ready(&self, now: int) -> bool {
        self.switch().ready(now)
    }

    open spec fn spec_when(&self) -> u64 {
        self.switch().spec_when()
    }

    open spec fn can_next(&self) -> bool {
        self.switch().can_next()
    }

    open spec fn endless(&self) -> bool {
        self.switch().endless()
    }

    open spec fn zero_run(&self, now: int) -> nat {
        self.switch().zero_run(now)
    }

    proof fn lemma_ready_later(&self, t1: int, t2: int) {
        self.inner.lemma_ready_later(t1, t2);
    }

    proof fn lemma_when_finite(&self, now: int) {
        self.inner.lemma_when_finite(now);
    }

    proof fn lemma_endless(&self, now: int) {
        self.inner.lemma_endless(now);
    }

    fn when(&self) -> (w: u64) {
        let ghost t = choose|t: int| #[trigger] self.ready(t);
        assert(self.inner.ready(t));
        self.inner.when()
    }

    /// No request comes until the time is up; after it, the traffic makes
    /// the requests.
    fn next(&mut self, time: u64) -> (r: (usize, usize)) {
        self.inner.next(time)
    }

    fn name(&self) -> (r: &'static str)
        ensures
            r@ == "Delay"@,
    {
        "Delay"
    }
}

} // verus!
