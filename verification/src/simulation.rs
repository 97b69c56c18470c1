use crate::building::{Building, TIME_LIMIT};
use crate::events::ran;
use crate::controls::{Controls, MAX_STATS_WINDOW, MIN_STATS_WINDOW};
use crate::policies::AnyPolicy;
use crate::policy::{Decision, Policy};
use crate::stats::Stats;
use crate::traffic::Traffic;
use vstd::prelude::*;

verus! {

/// Windows that the statistics keep: enough that the widest window fits.
pub const STATS_WINDOWS: usize = 3_600;

/// A building run by a policy under a traffic pattern, with statistics.
pub struct Simulation<T> {
    pub building: Building,
    pub decision: Decision,
    pub policy: AnyPolicy,
    pub traffic: T,
    pub stats: Stats,
}

impl<T: Traffic> Simulation<T> {
    /// What stays true between ticks.
    pub open spec fn wf(&self) -> bool {
        &&& self.building.runnable()
        &&& self.building.time_per_stop > 0
        &&& self.building.prev_time <= TIME_LIMIT
        &&& self.policy.inv(self.building.nfloors(), self.building.nelevators(), self.building.prev_time as int)
        &&& self.decision.fits(&self.building)
        &&& self.decision.waits_from(self.building.prev_time as int)
        &&& self.traffic.ready(self.building.prev_time as int)
        &&& self.traffic.fits_floors(self.building.nfloors())
        &&& self.stats.wf()
        &&& self.stats.start <= self.building.prev_time
        &&& self.stats.window <= MAX_STATS_WINDOW
        &&& self.stats.max_time_len >= MAX_STATS_WINDOW
    }

    /// The simulation can run on to time `until`: not back in time, not
    /// past the time limit, past the start of the statistics, and no
    /// passenger would leave at the very start of the statistics.
    pub open spec fn can_run_to(&self, until: int) -> bool {
        &&& self.building.prev_time <= until <= TIME_LIMIT
        &&& self.stats.start < until
        &&& self.building.exits_after(self.stats.start as int, self.building.prev_time as int)
    }

    /// `self` is `old` with its statistics started anew, at the current
    /// time, with windows of `window`.
    pub open spec fn reset_from(&self, old: &Self, window: u64) -> bool {
        &&& self.building == old.building
        &&& self.traffic == old.traffic
        &&& self.stats.start == old.building.prev_time
        &&& self.stats.window == window
        &&& self.stats.max_time_len == old.stats.max_time_len
        &&& self.stats@.served.len() == 0
        &&& self.stats@.latencies.len() == 0
        &&& self.same_control(old)
    }

    /// The policy and its commands are the same.
    pub open spec fn same_control(&self, old: &Self) -> bool {
        self.decision == old.decision && self.policy == old.policy
    }

    /// A fresh simulation; its statistics start at time 0 with the window
    /// of the controls.
    pub fn new(building: Building, policy: AnyPolicy, traffic: T, c: &Controls) -> (s: Self)
        requires
            building.runnable(),
            building.time_per_stop > 0,
            building.exits_after(0, building.prev_time as int),
            policy.inv(building.nfloors(), building.nelevators(), building.prev_time as int),
            traffic.ready(building.prev_time as int),
            traffic.fits_floors(building.nfloors()),
            c.wf(),
        ensures
            s.wf(),
            s.building == building,
            s.traffic == traffic,
            s.stats.start == 0,
            s.stats.window == c.spec_stats_window(),
            s.stats@.served.len() == 0,
    {
        let decision = Decision::new(building.elevators.len());
        let stats = Stats::new(c.stats_window(), 0, STATS_WINDOWS);
        proof {
            assert(STATS_WINDOWS * c.spec_stats_window() >= MAX_STATS_WINDOW) by (nonlinear_arith)
                requires
                    c.spec_stats_window() >= MIN_STATS_WINDOW,
            ;
            assert(STATS_WINDOWS * c.spec_stats_window() <= u64::MAX) by (nonlinear_arith)
                requires
                    c.spec_stats_window() <= MAX_STATS_WINDOW,
            ;
        }
        Simulation { building, decision, policy, traffic, stats }
    }

    /// Runs the building on to time `until`.
    pub fn tick(&mut self, until: u64)
        requires
            old(self).wf(),
            old(self).can_run_to(until as int),
        ensures
            final(self).wf(),
            final(self).building.prev_time == until,
            final(self).building.nfloors() == old(self).building.nfloors(),
            final(self).building.nelevators() == old(self).building.nelevators(),
            final(self).stats.start < until,
            final(self).stats.window == old(self).stats.window,
            ran(
                old(self).building,
                old(self).policy,
                old(self).decision,
                old(self).traffic,
                old(self).stats@,
                final(self).building,
                final(self).policy,
                final(self).decision,
                final(self).traffic,
                final(self).stats@,
                until as int,
            ),
    {
        self.building.run(until, &mut self.policy, &mut self.decision, &mut self.traffic, &mut self.stats);
    }

    /// Whether the simulation can run on to time `until`.
    pub fn can_tick(&self, until: u64) -> (r: bool)
        requires
            self.wf(),
        ensures
            r == self.can_run_to(until as int),
    {
        self.building.prev_time <= until && until <= TIME_LIMIT && self.stats.start < until
            && self.building.all_exits_after(self.stats.start)
    }

    /// Starts the statistics anew at the current time with windows of
    /// `window`.
    pub fn reset_stats(&mut self, window: u64)
        requires
            old(self).wf(),
            MIN_STATS_WINDOW <= window <= MAX_STATS_WINDOW,
        ensures
            final(self).wf(),
            final(self).reset_from(old(self), window),
    {
        let now = self.building.prev_time();
        self.stats.reset(now, window);
    }
}

} // verus!
