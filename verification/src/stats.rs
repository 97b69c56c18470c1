use crate::building::Person;
use std::collections::VecDeque;
use vstd::arithmetic::div_mod::lemma_fundamental_div_mod_converse;
use vstd::prelude::*;

verus! {

/// What the statistics hold: consecutive windows of `window` time units,
/// the first starting at `start`; for each window the number of people
/// served in it and their latencies.
pub struct StatsModel {
    pub max_time_len: int,
    pub start: int,
    pub window: int,
    pub served: Seq<int>,
    pub latencies: Seq<Seq<u64>>,
}

impl StatsModel {
    /// Time at which the last window ends.
    pub open spec fn end(&self) -> int {
        self.start + self.served.len() * self.window
    }

    /// Number of windows dropped from the front when ticking to `until`:
    /// enough that the windows start no more than `max_time_len` before it.
    pub open spec fn trim_count(&self, until: int) -> int {
        if until - self.start > self.max_time_len {
            (until - self.max_time_len - self.start + self.window - 1) / self.window
        } else {
            0
        }
    }

    /// The statistics after ticking to `until`: old windows are dropped and
    /// empty windows are added until the last window ends after `until`.
    pub open spec fn tick(&self, until: int) -> StatsModel {
        let k = self.trim_count(until);
        let start1 = self.start + k * self.window;
        let dropped = if k < self.served.len() { k } else { self.served.len() as int };
        let served1 = self.served.skip(dropped);
        let lat1 = self.latencies.skip(dropped);
        let l1 = served1.len() as int;
        let l2 = if start1 + l1 * self.window > until {
            l1
        } else {
            (until - start1) / self.window + 1
        };
        StatsModel {
            max_time_len: self.max_time_len,
            start: start1,
            window: self.window,
            served: served1 + Seq::new((l2 - l1) as nat, |i: int| 0int),
            latencies: lat1 + Seq::new((l2 - l1) as nat, |i: int| Seq::<u64>::empty()),
        }
    }

    /// The statistics after recording, at `time`, a person served with the
    /// given latency: a tick to `time`, then one more person served in the
    /// last window (the count wraps at `usize::MAX`, as `+=` does in release
    /// builds).
    pub open spec fn add(&self, time: int, latency: u64) -> StatsModel {
        let t = self.tick(time);
        let n = t.served.len() - 1;
        let c = if t.served[n] == usize::MAX { 0 } else { t.served[n] + 1 };
        StatsModel {
            served: t.served.update(n, c),
            latencies: t.latencies.update(n, t.latencies[n].push(latency)),
            ..t
        }
    }

    /// The statistics after recording, at `time`, each person of `people`,
    /// in order.
    pub open spec fn record(&self, time: int, people: Seq<Person>) -> StatsModel
        decreases people.len(),
    {
        if people.len() == 0 {
            *self
        } else {
            let p = people.last();
            self.record(time, people.drop_last()).add(time, (time - p.req_time) as u64)
        }
    }
}

/// Throughput and latency of the people served, per time window.
#[derive(Clone)]
pub struct Stats {
    pub max_time_len: u64,
    pub start: u64,
    pub window: u64,
    /// Latencies of the people served in each window.
    pub latencies: VecDeque<Vec<u64>>,
    /// Number of people served in each window.
    pub served: VecDeque<usize>,
}

impl View for Stats {
    type V = StatsModel;

    open spec fn view(&self) -> StatsModel {
        StatsModel {
            max_time_len: self.max_time_len as int,
            start: self.start as int,
            window: self.window as int,
            served: self.served@.map_values(|c: usize| c as int),
            latencies: self.latencies@.map_values(|v: Vec<u64>| v@),
        }
    }
}

/// The ceiling of `a / w` is the number `j` of steps of `w` that first
/// reach `a`.
proof fn lemma_ceil_div(a: int, w: int, j: int)
    requires
        w > 0,
        a > 0,
        j >= 1,
        (j - 1) * w < a <= j * w,
    ensures
        (a + w - 1) / w == j,
{
    assert((j - 1) * w == j * w - w) by (nonlinear_arith);
    lemma_fundamental_div_mod_converse(a + w - 1, w, j, a - 1 - (j - 1) * w);
}

/// `q + 1` steps of `w` pass `u` for the first time exactly when `q` is
/// the quotient of `u` by `w`.
proof fn lemma_floor_div(u: int, w: int, q: int)
    requires
        w > 0,
        u >= 0,
        q >= 0,
        q * w <= u < (q + 1) * w,
    ensures
        u / w == q,
{
    assert((q + 1) * w == q * w + w) by (nonlinear_arith);
    lemma_fundamental_div_mod_converse(u, w, q, u - q * w);
}

proof fn lemma_len_bound(l: int, w: int, m: int)
    requires
        w > 0,
        l >= 0,
        m >= 0,
        l * w <= m + w,
    ensures
        l <= m / w + 1,
{
    let q = m / w;
    vstd::arithmetic::div_mod::lemma_fundamental_div_mod(m, w);
    assert(m < (q + 1) * w) by (nonlinear_arith)
        requires
            m == w * q + m % w,
            m % w < w,
    ;
    assert(m + w < (q + 2) * w) by (nonlinear_arith)
        requires
            m < (q + 1) * w,
    ;
    assert(l < q + 2) by (nonlinear_arith)
        requires
            l * w <= m + w,
            m + w < (q + 2) * w,
            w > 0,
    ;
}

impl Stats {
    /// The invariant that the windows keep.
    pub open spec fn wf(&self) -> bool {
        &&& self.window > 0
        &&& self.max_time_len >= self.window
        &&& self.served@.len() == self.latencies@.len()
        &&& self.served@.len() * self.window <= self.max_time_len + self.window
        &&& self.start + self.served@.len() * self.window <= u64::MAX
    }

    pub fn new(window: u64, start: u64, max_len: usize) -> (s: Self)
        ensures
            s.max_time_len == if max_len * window > u64::MAX { u64::MAX as int } else { max_len * window },
            s.start == start,
            s.window == window,
            s@.served.len() == 0,
            s@.latencies.len() == 0,
            window > 0 && max_len > 0 ==> s.wf(),
    {
        let m = max_len as u64;
        let max_time_len = if m != 0 && window > u64::MAX / m {
            proof {
                assert(m * window > u64::MAX) by (nonlinear_arith)
                    requires
                        m > 0,
                        window > u64::MAX / m,
                ;
            }
            u64::MAX
        } else {
            proof {
                assert(m * window <= u64::MAX) by (nonlinear_arith)
                    requires
                        m == 0 || window <= u64::MAX / m,
                        window <= u64::MAX,
                ;
            }
            m * window
        };
        proof {
            if window > 0 && max_len > 0 {
                assert(m * window >= window) by (nonlinear_arith)
                    requires
                        m >= 1,
                        window > 0,
                ;
            }
        }
        Stats {
            max_time_len,
            start,
            window,
            latencies: VecDeque::new(),
            served: VecDeque::new(),
        }
    }

    /// Drops all windows and starts anew at `time` with windows of `window`.
    pub fn reset(&mut self, time: u64, window: u64)
        ensures
            final(self).max_time_len == old(self).max_time_len,
            final(self).start == time,
            final(self).window == window,
            final(self)@.served.len() == 0,
            final(self)@.latencies.len() == 0,
            window > 0 && window <= old(self).max_time_len ==> final(self).wf(),
    {
        self.latencies.clear();
        self.served.clear();
        self.start = time;
        self.window = window;
    }

    /// Number of windows.
    pub fn len(&self) -> (n: usize)
        requires
            self.served@.len() == self.latencies@.len(),
        ensures
            n == self.served@.len(),
    {
        self.latencies.len()
    }

    /// Time at which the last window ends.
    pub fn end(&self) -> (e: u64)
        requires
            self.served@.len() == self.latencies@.len(),
            self.start + self.served@.len() * self.window <= u64::MAX,
        ensures
            e == self@.end(),
    {
        let n = self.len() as u64;
        proof {
            assert(n * self.window >= 0) by (nonlinear_arith)
                requires
                    n >= 0,
                    self.window >= 0,
            ;
        }
        n * self.window + self.start
    }

    /// Drops the first window.
    fn pop_front(&mut self)
        requires
            old(self).served@.len() == old(self).latencies@.len(),
            old(self).start + old(self).window <= u64::MAX,
        ensures
            final(self).served@ == old(self).served@.skip(
                if old(self).served@.len() > 0 { 1int } else { 0int },
            ),
            final(self).latencies@ == old(self).latencies@.skip(
                if old(self).latencies@.len() > 0 { 1int } else { 0int },
            ),
            final(self).start == old(self).start + old(self).window,
            final(self).window == old(self).window,
            final(self).max_time_len == old(self).max_time_len,
    {
        let _ = self.latencies.pop_front();
        let _ = self.served.pop_front();
        self.start = self.start + self.window;
    }
}


impl Stats {
    /// Drops windows from the front until the first starts at or after `to`.
    fn trim_start(&mut self, to: u64)
        requires
            old(self).served@.len() == old(self).latencies@.len(),
            old(self).window > 0,
            old(self).start < to,
            to + old(self).window <= u64::MAX,
        ensures
            ({
                let o = old(self)@;
                let k = (to - o.start + o.window - 1) / o.window;
                let d = if k < o.served.len() { k } else { o.served.len() as int };
                final(self)@ == StatsModel {
                    start: o.start + k * o.window,
                    served: o.served.skip(d),
                    latencies: o.latencies.skip(d),
                    ..o
                }
            }),
            final(self).served@.len() == final(self).latencies@.len(),
            to <= final(self).start < to + old(self).window,
    {
        let ghost o = old(self)@;
        let ghost sd = self.served@;
        let ghost ld = self.latencies@;
        let ghost w = o.window;
        let ghost len = o.served.len() as int;
        let ghost mut j: int = 0;
        while self.start < to
            invariant
                self.window == o.window,
                self.max_time_len == o.max_time_len,
                w == self.window,
                w > 0,
                j >= 0,
                self.start == o.start + j * w,
                self.start < to + w,
                to + w <= u64::MAX,
                j == 0 || o.start + (j - 1) * w < to,
                sd.len() == len,
                ld.len() == len,
                self.served@ == sd.skip(if j < len { j } else { len }),
                self.latencies@ == ld.skip(if j < len { j } else { len }),
            decreases to + w - self.start,
        {
            assert(self.start + self.window <= u64::MAX);
            self.pop_front();
            proof {
                let d1 = if j + 1 < len { j + 1 } else { len };
                assert(self.served@ =~= sd.skip(d1));
                assert(self.latencies@ =~= ld.skip(d1));
                assert(o.start + (j + 1) * w == o.start + j * w + w) by (nonlinear_arith);
                j = j + 1;
            }
        }
        proof {
            assert(j >= 1);
            lemma_ceil_div(to - o.start, w, j);
            let d = if j < len { j } else { len };
            assert(self@.served =~= o.served.skip(d));
            assert(self@.latencies =~= o.latencies.skip(d));
        }
    }

    /// Moves the windows on to time `until`: windows that start more than
    /// `max_time_len` before `until` are dropped, and empty windows are added
    /// until the last one ends after `until`.
    pub fn tick(&mut self, until: u64)
        requires
            old(self).wf(),
            old(self).start < until,
            until + old(self).window <= u64::MAX,
        ensures
            final(self).wf(),
            final(self)@ == old(self)@.tick(until as int),
            final(self).start < until,
            final(self)@.end() > until,
            final(self)@.served.len() <= final(self).max_time_len / final(self).window + 1,
            final(self)@.end() - final(self).start <= final(self).max_time_len + final(self).window,
    {
        let ghost o = old(self)@;
        let ghost w = o.window;
        let gap = if until >= self.start { until - self.start } else { 0 };
        let trimmed = gap > self.max_time_len;
        if trimmed {
            self.trim_start(until - self.max_time_len);
        }
        let ghost t = o.tick(until as int);
        let ghost k = o.trim_count(until as int);
        let ghost d = if k < o.served.len() { k } else { o.served.len() as int };
        proof {
            if !trimmed {
                assert(k == 0);
                assert(d == 0);
                assert(self@.served =~= o.served.skip(d));
                assert(self@.latencies =~= o.latencies.skip(d));
                assert(k * w == 0) by (nonlinear_arith)
                    requires
                        k == 0,
                ;
            }
            assert(self@.served == o.served.skip(d));
            assert(self@.latencies == o.latencies.skip(d));
            assert(self.start == o.start + k * w);
            assert(self.start <= until);
            assert(until - self.start <= o.max_time_len);
            assert(self@.served.len() <= o.served.len());
            assert(self@.served.len() * w <= o.served.len() * w) by (nonlinear_arith)
                requires
                    self@.served.len() <= o.served.len(),
                    w > 0,
            ;
            if self@.served.len() > 0 {
                assert(self@.served.len() == o.served.len() - k);
                assert(self.start + self@.served.len() * w == o.start + o.served.len() * w) by (nonlinear_arith)
                    requires
                        self.start == o.start + k * w,
                        self@.served.len() == o.served.len() - k,
                ;
            }
        }
        let ghost start1 = self.start as int;
        let ghost l1 = self@.served.len() as int;
        let ghost s1 = self@;
        let mut pushed: bool = false;
        while self.end() <= until
            invariant
                self.window == o.window,
                self.max_time_len == o.max_time_len,
                self.start == start1,
                w == self.window,
                w > 0,
                self.served@.len() == self.latencies@.len(),
                self.served@.len() >= l1,
                s1.served.len() == l1,
                s1.latencies.len() == l1,
                self@.served == s1.served + Seq::new((self.served@.len() - l1) as nat, |i: int| 0int),
                self@.latencies == s1.latencies + Seq::new(
                    (self.served@.len() - l1) as nat,
                    |i: int| Seq::<u64>::empty(),
                ),
                start1 + self.served@.len() * w <= u64::MAX,
                until + w <= u64::MAX,
                pushed ==> start1 + (self.served@.len() - 1) * w <= until,
                pushed ==> start1 + l1 * w <= until,
                !pushed ==> self.served@.len() == l1,
            decreases until + w - (start1 + self.served@.len() * w),
        {
            let ghost prev = self@;
            self.latencies.push_back(Vec::new());
            self.served.push_back(0);
            proof {
                let n = self.served@.len() as int;
                assert(self@.served =~= prev.served.push(0int));
                assert(self@.latencies =~= prev.latencies.push(Seq::<u64>::empty()));
                assert(self@.served =~= s1.served + Seq::new((n - l1) as nat, |i: int| 0int));
                assert(self@.latencies =~= s1.latencies + Seq::new(
                    (n - l1) as nat,
                    |i: int| Seq::<u64>::empty(),
                ));
                assert(start1 + n * w == start1 + (n - 1) * w + w) by (nonlinear_arith);
            }
            pushed = true;
        }
        proof {
            let n = self.served@.len() as int;
            assert(start1 + n * w > until);
            if pushed {
                assert(n * w == (n - 1) * w + w) by (nonlinear_arith);
                lemma_floor_div(until - start1, w, n - 1);
            }
            let l2 = if start1 + l1 * w > until { l1 } else { (until - start1) / w + 1 };
            assert(t.start == start1);
            assert(l2 == n);
            assert(self@.served =~= t.served);
            assert(self@.latencies =~= t.latencies);
            if pushed {
                assert(n * w <= self.max_time_len + w) by (nonlinear_arith)
                    requires
                        start1 + (n - 1) * w <= until,
                        until - start1 <= o.max_time_len,
                        self.max_time_len == o.max_time_len,
                ;
            } else {
                assert(n * w <= self.max_time_len + w);
            }
            lemma_len_bound(n, w, self.max_time_len as int);
        }
    }
}


impl Stats {
    /// Records when a person reaches their destination.
    pub fn add(&mut self, time: u64, person: &Person)
        requires
            old(self).wf(),
            old(self).start < time,
            time + old(self).window <= u64::MAX,
            person.req_time <= time,
        ensures
            final(self).wf(),
            final(self)@ == old(self)@.add(time as int, (time - person.req_time) as u64),
            final(self).start < time,
            final(self).window == old(self).window,
            final(self).max_time_len == old(self).max_time_len,
    {
        self.tick(time);
        proof {
            let n = self@.served.len() as int;
            if n == 0 {
                assert(n * self.window == 0) by (nonlinear_arith)
                    requires
                        n == 0,
                ;
            }
            assert(self.served@.len() > 0);
        }
        let ghost t = self@;
        let ghost sd = self.served@;
        let ghost ld = self.latencies@;
        let c = self.served.pop_back().unwrap();
        let c1 = if c == usize::MAX { 0 } else { c + 1 };
        self.served.push_back(c1);
        let latency = time - person.req_time;
        let mut l = self.latencies.pop_back().unwrap();
        l.push(latency);
        self.latencies.push_back(l);
        proof {
            let n = t.served.len() - 1;
            assert(self.served@ =~= sd.update(n, c1));
            assert(self.latencies@ =~= ld.update(n, l));
            assert(self@.served =~= t.served.update(n, c1 as int));
            assert(self@.latencies =~= t.latencies.update(n, t.latencies[n].push(latency)));
        }
    }

    /// Drops windows from the front until at most `to` remain.
    pub fn trim(&mut self, to: usize)
        requires
            old(self).wf(),
        ensures
            final(self).wf(),
            ({
                let o = old(self)@;
                let k = if o.served.len() > to { o.served.len() - to } else { 0 };
                final(self)@ == StatsModel {
                    start: o.start + k * o.window,
                    served: o.served.skip(k),
                    latencies: o.latencies.skip(k),
                    ..o
                }
            }),
    {
        let ghost o = self@;
        let ghost sd = self.served@;
        let ghost ld = self.latencies@;
        let ghost len = sd.len() as int;
        let ghost w = o.window;
        let ghost mut j: int = 0;
        while self.len() > to
            invariant
                self.window == o.window,
                self.max_time_len == o.max_time_len,
                w == self.window,
                w > 0,
                0 <= j <= len,
                sd.len() == len,
                ld.len() == len,
                o.served.len() == len,
                self.served@ == sd.skip(j),
                self.latencies@ == ld.skip(j),
                self.start == o.start + j * w,
                o.start + len * w <= u64::MAX,
                j > 0 ==> len > to && j <= len - to,
            decreases self.served@.len(),
        {
            proof {
                assert(o.start + (j + 1) * w <= o.start + len * w) by (nonlinear_arith)
                    requires
                        j + 1 <= len,
                        w > 0,
                ;
                assert(o.start + (j + 1) * w == o.start + j * w + w) by (nonlinear_arith);
            }
            self.pop_front();
            proof {
                assert(self.served@ =~= sd.skip(j + 1));
                assert(self.latencies@ =~= ld.skip(j + 1));
                j = j + 1;
            }
        }
        proof {
            let k = if len > to { len - to } else { 0 };
            assert(j == k);
            assert(self@.served =~= o.served.skip(k));
            assert(self@.latencies =~= o.latencies.skip(k));
            assert((len - j) * w <= len * w) by (nonlinear_arith)
                requires
                    0 <= j <= len,
                    w > 0,
            ;
            assert(o.start + j * w + (len - j) * w == o.start + len * w) by (nonlinear_arith);
        }
    }

    /// Number of people served in each window but the last, which is still
    /// filling.
    pub fn throughput(&self) -> (r: Vec<usize>)
        requires
            self.served@.len() == self.latencies@.len(),
        ensures
            r@ == self.served@.take(if self.served@.len() > 0 { self.served@.len() - 1 } else { 0 }),
    {
        let n = self.served.len();
        let m = if n > 0 { n - 1 } else { 0 };
        let mut r: Vec<usize> = Vec::new();
        let mut i: usize = 0;
        while i < m
            invariant
                m <= n,
                n == self.served@.len(),
                i <= m,
                r@ == self.served@.take(i as int),
            decreases m - i,
        {
            r.push(self.served[i]);
            proof {
                assert(r@ =~= self.served@.take(i + 1));
            }
            i = i + 1;
        }
        r
    }
}

} // verus!
