use crate::simulation::Simulation;
use crate::traffic::Traffic;
use vstd::prelude::*;

verus! {

pub const DEFAULT_SPEED: u64 = 1;

pub const DEFAULT_STATS_WINDOW: u64 = 1_000;

pub const MAX_SPEED: u64 = 1_048_576;

/// The narrowest statistics window, in ms.
pub const MIN_STATS_WINDOW: u64 = 1_000;

/// The widest statistics window, in ms.
pub const MAX_STATS_WINDOW: u64 = 3_600_000;

/// Twice the speed, up to the maximum.
pub open spec fn faster(speed: int) -> int {
    if 2 * speed <= MAX_SPEED { 2 * speed } else { MAX_SPEED as int }
}

/// Half the speed, down to 1.
pub open spec fn slower(speed: int) -> int {
    if speed / 2 >= 1 { speed / 2 } else { 1 }
}

/// Twice the window, up to the widest.
pub open spec fn wider(window: int) -> int {
    if 2 * window <= MAX_STATS_WINDOW { 2 * window } else { MAX_STATS_WINDOW as int }
}

/// Half the window, down to the narrowest.
pub open spec fn narrower(window: int) -> int {
    if window / 2 >= MIN_STATS_WINDOW { window / 2 } else { MIN_STATS_WINDOW as int }
}

/// Slowing down undoes speeding up, unless the speed hit the maximum.
pub proof fn lemma_slower_undoes_faster(speed: int)
    requires
        1 <= speed,
        2 * speed <= MAX_SPEED,
    ensures
        slower(faster(speed)) == speed,
{
}

/// Speeding up undoes slowing down from an even speed.
pub proof fn lemma_faster_undoes_slower(speed: int)
    requires
        2 <= speed <= MAX_SPEED,
        speed % 2 == 0,
    ensures
        faster(slower(speed)) == speed,
{
}

/// Narrowing undoes widening, unless the window hit the widest.
pub proof fn lemma_narrower_undoes_wider(window: int)
    requires
        MIN_STATS_WINDOW <= window,
        2 * window <= MAX_STATS_WINDOW,
    ensures
        narrower(wider(window)) == window,
{
}

/// Widening undoes narrowing from an even window, unless the window hit
/// the narrowest.
pub proof fn lemma_wider_undoes_narrower(window: int)
    requires
        2 * MIN_STATS_WINDOW <= window <= MAX_STATS_WINDOW,
        window % 2 == 0,
    ensures
        wider(narrower(window)) == window,
{
}

/// The speed and the window stay within their bounds.
pub proof fn lemma_controls_bounded(speed: int, window: int)
    requires
        1 <= speed <= MAX_SPEED,
        MIN_STATS_WINDOW <= window <= MAX_STATS_WINDOW,
    ensures
        1 <= faster(speed) <= MAX_SPEED,
        1 <= slower(speed) <= MAX_SPEED,
        MIN_STATS_WINDOW <= wider(window) <= MAX_STATS_WINDOW,
        MIN_STATS_WINDOW <= narrower(window) <= MAX_STATS_WINDOW,
{
}

/// A key that changes how the simulation runs.
#[derive(Debug, Clone, Copy, PartialEq, Eq, Structural)]
pub enum Control {
    /// Twice the speed, up to the maximum.
    Faster,
    /// Half the speed, down to 1.
    Slower,
    /// Half the statistics window, down to the minimum.
    NarrowerWindow,
    /// Twice the statistics window, up to the maximum.
    WiderWindow,
    /// Any other key.
    Other,
}

/// How fast the simulation runs and how wide its statistics windows are.
pub struct Controls {
    speed: u64,
    stats_window: u64,
}

impl Default for Controls {
    fn default() -> (c: Self)
        ensures
            c.spec_speed() == DEFAULT_SPEED,
            c.spec_stats_window() == DEFAULT_STATS_WINDOW,
    {
        Controls { speed: DEFAULT_SPEED, stats_window: DEFAULT_STATS_WINDOW }
    }
}

impl Controls {
    pub closed spec fn spec_speed(&self) -> u64 {
        self.speed
    }

    pub closed spec fn spec_stats_window(&self) -> u64 {
        self.stats_window
    }

    /// The settings stay within their bounds.
    pub open spec fn wf(&self) -> bool {
        &&& 1 <= self.spec_speed() <= MAX_SPEED
        &&& MIN_STATS_WINDOW <= self.spec_stats_window() <= MAX_STATS_WINDOW
    }

    /// Applies a key: the speed and the window double or halve within
    /// their bounds; a new window resets every simulation's statistics at
    /// its current time.
    pub fn handle_input<T: Traffic>(&mut self, key: Control, sims: &mut Vec<Simulation<T>>)
        requires
            old(self).wf(),
            forall|i: int| 0 <= i < old(sims)@.len() ==> (#[trigger] old(sims)@[i]).wf(),
        ensures
            final(self).wf(),
            final(self).spec_speed() == match key {
                Control::Faster => faster(old(self).spec_speed() as int),
                Control::Slower => slower(old(self).spec_speed() as int),
                _ => old(self).spec_speed() as int,
            },
            final(self).spec_stats_window() == match key {
                Control::NarrowerWindow => narrower(old(self).spec_stats_window() as int),
                Control::WiderWindow => wider(old(self).spec_stats_window() as int),
                _ => old(self).spec_stats_window() as int,
            },
            final(sims)@.len() == old(sims)@.len(),
            forall|i: int| 0 <= i < final(sims)@.len() ==> (#[trigger] final(sims)@[i]).wf(),
            forall|i: int|
                0 <= i < final(sims)@.len() ==> if key == Control::NarrowerWindow || key == Control::WiderWindow {
                    (#[trigger] final(sims)@[i]).reset_from(&old(sims)@[i], final(self).spec_stats_window())
                } else {
                    final(sims)@[i] == old(sims)@[i]
                },
    {
        match key {
            Control::Faster => {
                let s = self.speed * 2;
                self.speed = if s < MAX_SPEED { s } else { MAX_SPEED };
            },
            Control::Slower => {
                let s = self.speed / 2;
                self.speed = if s > 1 { s } else { 1 };
            },
            Control::NarrowerWindow => {
                let w = self.stats_window / 2;
                self.stats_window = if w > MIN_STATS_WINDOW { w } else { MIN_STATS_WINDOW };
                reset_all(sims, self.stats_window);
            },
            Control::WiderWindow => {
                let w = self.stats_window * 2;
                self.stats_window = if w < MAX_STATS_WINDOW { w } else { MAX_STATS_WINDOW };
                reset_all(sims, self.stats_window);
            },
            Control::Other => {},
        }
    }

    pub fn stats_window(&self) -> (w: u64)
        ensures
            w == self.spec_stats_window(),
    {
        self.stats_window
    }

    pub fn speed(&self) -> (s: u64)
        ensures
            s == self.spec_speed(),
    {
        self.speed
    }
}

/// Resets the statistics of every simulation to windows of `window`.
fn reset_all<T: Traffic>(sims: &mut Vec<Simulation<T>>, window: u64)
    requires
        MIN_STATS_WINDOW <= window <= MAX_STATS_WINDOW,
        forall|i: int| 0 <= i < old(sims)@.len() ==> (#[trigger] old(sims)@[i]).wf(),
    ensures
        final(sims)@.len() == old(sims)@.len(),
        forall|i: int|
            0 <= i < final(sims)@.len() ==> (#[trigger] final(sims)@[i]).wf() && final(sims)@[i].reset_from(
                &old(sims)@[i],
                window,
            ),
{
    let n = sims.len();
    let mut i: usize = 0;
    while i < n
        invariant
            MIN_STATS_WINDOW <= window <= MAX_STATS_WINDOW,
            n == sims@.len(),
            n == old(sims)@.len(),
            i <= n,
            forall|j: int| 0 <= j < i ==> (#[trigger] sims@[j]).wf() && sims@[j].reset_from(&old(sims)@[j], window),
            forall|j: int| i <= j < n ==> #[trigger] sims@[j] == old(sims)@[j],
            forall|j: int| 0 <= j < n ==> (#[trigger] old(sims)@[j]).wf(),
        decreases n - i,
    {
        sims[i].reset_stats(window);
        i = i + 1;
    }
}

} // verus!
