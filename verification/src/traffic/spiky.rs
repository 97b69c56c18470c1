use crate::building::TIME_LIMIT;
use crate::traffic::Traffic;
use vstd::prelude::*;

verus! {

/// The phases that spiky traffic goes through, in order.
#[derive(Clone, Copy, PartialEq, Eq, Debug)]
pub enum Phase {
    Spike,
    Falling,
    Lull,
    Rising,
}

/// The timing state of spiky traffic.
pub struct SpikyView {
    pub rise: u64,
    pub cur_period: u64,
    pub lull_period: u64,
    pub lull_duration: u64,
    pub spike_period: u64,
    pub spike_duration: u64,
    pub phase_start: u64,
    pub phase: Phase,
}

/// How the timing state changes when a request is made at `time`: a lull
/// that has lasted long enough starts rising; a spike that has lasted long
/// enough starts falling; while rising, the period shrinks by `rise` until it
/// reaches the spike period; while falling, it grows by `rise` until it
/// reaches the lull period.
pub open spec fn spike_step(s: SpikyView, time: int) -> SpikyView {
    match s.phase {
        Phase::Lull => {
            if time - s.phase_start > s.lull_duration {
                SpikyView { phase: Phase::Rising, cur_period: s.rise, ..s }
            } else {
                s
            }
        },
        Phase::Spike => {
            if time - s.phase_start > s.spike_duration {
                let p = if s.cur_period >= s.rise { (s.cur_period - s.rise) as u64 } else { 0u64 };
                SpikyView { phase: Phase::Falling, cur_period: p, ..s }
            } else {
                s
            }
        },
        Phase::Rising => {
            let p = if s.cur_period >= s.rise { (s.cur_period - s.rise) as u64 } else { 0u64 };
            if p <= s.spike_period {
                SpikyView { phase: Phase::Spike, cur_period: s.spike_period, phase_start: time as u64, ..s }
            } else {
                SpikyView { cur_period: p, ..s }
            }
        },
        Phase::Falling => {
            let p = s.cur_period + s.rise;
            if p >= s.lull_period {
                SpikyView { phase: Phase::Lull, cur_period: s.lull_period, phase_start: time as u64, ..s }
            } else {
                SpikyView { cur_period: p as u64, ..s }
            }
        },
    }
}

/// Traffic whose period alternates between lulls and spikes, with gradual
/// rises and falls in between; the requests themselves come from `inner`.
pub struct Spiky<T> {
    inner: T,
    rise: u64,
    cur_period: u64,
    lull_period: u64,
    lull_duration: u64,
    spike_period: u64,
    spike_duration: u64,
    phase_start: u64,
    phase: Phase,
}

impl<T> View for Spiky<T> {
    type V = SpikyView;

    closed spec fn view(&self) -> SpikyView {
        SpikyView {
            rise: self.rise,
            cur_period: self.cur_period,
            lull_period: self.lull_period,
            lull_duration: self.lull_duration,
            spike_period: self.spike_period,
            spike_duration: self.spike_duration,
            phase_start: self.phase_start,
            phase: self.phase,
        }
    }
}

impl<T: Traffic> Spiky<T> {
    pub closed spec fn inner(&self) -> T {
        self.inner
    }

    /// The period lies between the spike and the lull periods, unless a
    /// rise overshoots the lull period: it is the lull period in a lull and
    /// the spike period in a spike.
    pub proof fn lemma_period_bounded(&self, now: int)
        requires
            self.ready(now),
            self@.rise <= self@.lull_period,
        ensures
            self.spec_when() == self@.cur_period,
            self@.cur_period <= self@.lull_period,
            self@.phase == Phase::Lull ==> self@.cur_period == self@.lull_period,
            self@.phase == Phase::Spike ==> self@.cur_period == self@.spike_period,
    {
    }

    pub fn new(
        inner: T,
        lull_period: u64,
        spike_period: u64,
        rise: u64,
        lull_duration: u64,
        spike_duration: u64,
    ) -> (s: Self)
        requires
            lull_period >= spike_period,
            spike_period > 0,
            lull_period + rise <= u64::MAX,
        ensures
            s.inner() == inner,
            s@ == (SpikyView {
                rise,
                cur_period: lull_period,
                lull_period,
                lull_duration,
                spike_period,
                spike_duration,
                phase_start: 0,
                phase: Phase::Lull,
            }),
            s.ready(0) <==> inner.ready(0) && inner.endless(),
            forall|f: int| #[trigger] s.fits_floors(f) <==> inner.fits_floors(f),
            s.endless() <==> inner.endless(),
    {
        Spiky {
            inner,
            lull_period,
            spike_period,
            rise,
            lull_duration,
            spike_duration,
            cur_period: lull_period,
            phase_start: 0,
            phase: Phase::Lull,
        }
    }
}

impl<T: Traffic> Traffic for Spiky<T> {
    /// The inner traffic made the request; the timing takes one step.
    open spec fn made(&self, after: &Self, time: int, r: (usize, usize)) -> bool {
        &&& self.inner().made(&after.inner(), time, r)
        &&& after@ == spike_step(self@, time)
    }

    open spec fn spec_name(&self) -> Seq<char> {
        "Spiky"@
    }

    closed spec fn fits_floors(&self, floors: int) -> bool {
        self.inner.fits_floors(floors)
    }

    closed spec fn ready(&self, now: int) -> bool {
        &&& self.inner.ready(now)
        &&& self.inner.endless()
        &&& self.phase_start <= now
        &&& self.lull_period >= self.spike_period
        &&& self.lull_period + self.rise <= u64::MAX
        &&& self.spike_period > 0
        &&& self.phase != Phase::Rising ==> self.cur_period <= self.lull_period
        &&& self.phase == Phase::Lull ==> self.cur_period == self.lull_period
        &&& self.phase == Phase::Spike ==> self.cur_period == self.spike_period
        &&& self.phase == Phase::Falling && self.rise == 0 ==> self.cur_period > 0
        &&& self.phase == Phase::Rising ==> self.cur_period <= self.rise
    }

    open spec fn spec_when(&self) -> u64 {
        self@.cur_period
    }

    closed spec fn can_next(&self) -> bool {
        self.inner.can_next()
    }

    closed spec fn endless(&self) -> bool {
        self.inner.endless()
    }

    /// A zero period can only follow the end of a lull (with no rise) or of
    /// a spike (with a rise of at least the spike period), once each.
    closed spec fn zero_run(&self, now: int) -> nat {
        match self.phase {
            Phase::Lull => if now - self.phase_start > self.lull_duration && self.rise == 0 { 1 } else { 0 },
            Phase::Spike => if now - self.phase_start > self.spike_duration && self.rise >= self.spike_period { 1 } else { 0 },
            _ => 0,
        }
    }

    proof fn lemma_ready_later(&self, t1: int, t2: int) {
        self.inner.lemma_ready_later(t1, t2);
    }

    proof fn lemma_when_finite(&self, now: int) {
        self.inner.lemma_endless(now);
    }

    proof fn lemma_endless(&self, now: int) {
        self.inner.lemma_endless(now);
    }

    fn when(&self) -> (w: u64) {
        self.cur_period
    }

    fn next(&mut self, time: u64) -> (r: (usize, usize)) {
        match self.phase {
            Phase::Lull => {
                if time - self.phase_start > self.lull_duration {
                    self.phase = Phase::Rising;
                    self.cur_period = self.rise;
                }
            },
            Phase::Spike => {
                if time - self.phase_start > self.spike_duration {
                    self.phase = Phase::Falling;
                    self.cur_period = self.cur_period.saturating_sub(self.rise);
                }
            },
            Phase::Rising => {
                self.cur_period = self.cur_period.saturating_sub(self.rise);
                if self.cur_period <= self.spike_period {
                    self.cur_period = self.spike_period;
                    self.phase = Phase::Spike;
                    self.phase_start = time;
                }
            },
            Phase::Falling => {
                self.cur_period = self.cur_period + self.rise;
                if self.cur_period >= self.lull_period {
                    self.cur_period = self.lull_period;
                    self.phase = Phase::Lull;
                    self.phase_start = time;
                }
            },
        }
        self.inner.next(time)
    }

    fn name(&self) -> (r: &'static str)
        ensures
            r@ == "Spiky"@,
    {
        "Spiky"
    }
}

} // verus!
