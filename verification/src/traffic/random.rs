use crate::building::TIME_LIMIT;
use crate::rng::{rng_bool, rng_u64, rng_with_seed};
use crate::traffic::Traffic;
use vstd::prelude::*;

verus! {

/// The weights of `size` floors: those given, then 1 for each floor
/// beyond them.
pub open spec fn padded(weights: Seq<u64>, size: nat) -> Seq<u64> {
    Seq::new(size, |i: int| if i < weights.len() { weights[i] } else { 1u64 })
}

/// The sum of the first `n` weights.
pub open spec fn sum_to(w: Seq<u64>, n: int) -> int
    decreases n,
{
    if n <= 0 {
        0
    } else {
        sum_to(w, n - 1) + w[n - 1]
    }
}

/// `p` holds the running sums of weights.
pub open spec fn is_prefix_sums(p: Seq<u64>) -> bool {
    &&& p.len() > 0
    &&& forall|i: int| 0 < i < p.len() ==> #[trigger] p[i] >= p[i - 1]
}

/// The weight of floor `i` in running sums `p`.
pub open spec fn weight(p: Seq<u64>, i: int) -> int {
    if i == 0 { p[0] as int } else { p[i] - p[i - 1] }
}

/// The running sum up to and including floor `i`, leaving out floor `e`.
pub open spec fn sum_without(p: Seq<u64>, e: Option<usize>, i: int) -> int {
    match e {
        Some(x) => if x <= i { p[i] - weight(p, x as int) } else { p[i] as int },
        None => p[i] as int,
    }
}

/// The sum of all weights but floor `e`'s.
pub open spec fn total_without(p: Seq<u64>, e: Option<usize>) -> int {
    sum_without(p, e, p.len() - 1)
}

/// Floor `r` is where a draw `s` below the total falls: the first floor
/// other than `e` whose running sum without `e` exceeds `s`.
pub open spec fn picked(p: Seq<u64>, e: Option<usize>, s: int, r: int) -> bool {
    &&& 0 <= r < p.len()
    &&& e != Some(r as usize)
    &&& s < sum_without(p, e, r)
    &&& forall|j: int| 0 <= j < r && e != Some(j as usize) ==> #[trigger] sum_without(p, e, j) <= s
}

/// A floor drawn with weights `p` leaves some weight in `q` once that floor
/// is left out, and `p` has some weight: a request can always be made by
/// drawing from `p` first.
pub open spec fn can_pair(p: Seq<u64>, q: Seq<u64>) -> bool {
    &&& p.len() > 0
    &&& total_without(p, None) > 0
    &&& forall|e: int| 0 <= e < p.len() && #[trigger] weight(p, e) > 0 ==> total_without(q, Some(e as usize)) > 0
}

/// Some draw below the total, leaving out floor `e`, falls on floor `r`.
pub open spec fn drawn(p: Seq<u64>, e: Option<usize>, r: int) -> bool {
    exists|s: int| 0 <= s < total_without(p, e) && #[trigger] picked(p, e, s, r)
}

proof fn lemma_sums_increase(p: Seq<u64>, i: int, j: int)
    requires
        is_prefix_sums(p),
        0 <= i <= j < p.len(),
    ensures
        p[i] <= p[j],
    decreases j - i,
{
    if i < j {
        lemma_sums_increase(p, i, j - 1);
    }
}

/// A person at a random floor wants to go to a random floor every
/// `period`. Floors are drawn with the given weights; the second floor of
/// a request never equals the first.
pub struct Random {
    src_distr: Vec<u64>,
    dest_distr: Vec<u64>,
    period: u64,
    rng: fastrand::Rng,
}

impl Random {
    /// Running sums of the weights of `size` floors: the weights given,
    /// then weight 1 for each remaining floor.
    pub fn prefix_sum(size: usize, data: Vec<u64>) -> (r: Vec<u64>)
        requires
            data@.len() <= size,
            sum_to(padded(data@, size as nat), size as int) <= u64::MAX,
        ensures
            r@.len() == size,
            forall|i: int| 0 <= i < size ==> #[trigger] r@[i] == sum_to(padded(data@, size as nat), i + 1),
    {
        let ghost w = padded(data@, size as nat);
        let mut r: Vec<u64> = Vec::new();
        let mut acc: u64 = 0;
        let mut i: usize = 0;
        while i < size
            invariant
                w == padded(data@, size as nat),
                data@.len() <= size,
                i <= size,
                sum_to(w, size as int) <= u64::MAX,
                r@.len() == i,
                acc == sum_to(w, i as int),
                forall|j: int| 0 <= j < i ==> #[trigger] r@[j] == sum_to(w, j + 1),
            decreases size - i,
        {
            proof {
                lemma_sum_to_monotone(w, (i + 1) as int, size as int);
            }
            let x: u64 = if i < data.len() {
                data[i]
            } else {
                1
            };
            acc = acc + x;
            r.push(acc);
            i = i + 1;
        }
        r
    }

    /// The floor where the draw `s` falls, leaving out floor `exclude`.
    pub fn pick(prefix_sum: &Vec<u64>, exclude: Option<usize>, s: u64) -> (r: usize)
        requires
            is_prefix_sums(prefix_sum@),
            exclude matches Some(e) ==> e < prefix_sum@.len(),
            s < total_without(prefix_sum@, exclude),
        ensures
            picked(prefix_sum@, exclude, s as int, r as int),
    {
        let ghost p = prefix_sum@;
        let l = prefix_sum.len();
        let excluded_value: u64 = match exclude {
            Some(e) => if e > 0 {
                prefix_sum[e] - prefix_sum[e - 1]
            } else {
                prefix_sum[e]
            },
            None => 0,
        };
        proof {
            if let Some(e) = exclude {
                lemma_sums_increase(p, e as int, l - 1);
                assert(excluded_value == weight(p, e as int));
            }
        }
        let mut v = s;
        let mut i: usize = 0;
        while i < l
            invariant
                p == prefix_sum@,
                is_prefix_sums(p),
                l == p.len(),
                i <= l,
                exclude matches Some(e) ==> e < l && excluded_value == weight(p, e as int),
                exclude is None ==> excluded_value == 0,
                s < total_without(p, exclude),
                v == s + (if exclude matches Some(e) && e < i { excluded_value as int } else { 0int }),
                forall|j: int| 0 <= j < i && exclude != Some(j as usize) ==> #[trigger] sum_without(p, exclude, j) <= s,
            decreases l - i,
        {
            if exclude == Some(i) {
                proof {
                    lemma_sums_increase(p, i as int, l - 1);
                    if i > 0 {
                        lemma_sums_increase(p, i - 1, l - 1);
                    }
                }
                v = v + excluded_value;
            }
            proof {
                lemma_sums_increase(p, i as int, l - 1);
            }
            if v < prefix_sum[i] {
                proof {
                    if exclude == Some(i) {
                        // The excluded floor adds nothing: the draw is past the
                        // floor below it.
                        if i > 0 {
                            assert(exclude != Some((i - 1) as usize));
                            assert(sum_without(p, exclude, i - 1) <= s);
                        }
                        assert(false);
                    }
                }
                return i;
            }
            i = i + 1;
        }
        proof {
            let last = l - 1;
            if exclude != Some(last as usize) {
                assert(sum_without(p, exclude, last) <= s);
            } else if last > 0 {
                assert(sum_without(p, exclude, last - 1) <= s);
                assert(sum_without(p, exclude, last) == sum_without(p, exclude, last - 1));
            }
            assert(false);
        }
        0
    }

    /// A floor drawn with the weights, leaving out floor `exclude`.
    pub fn sample(rng: &mut fastrand::Rng, prefix_sum: &Vec<u64>, exclude: Option<usize>) -> (r: usize)
        requires
            is_prefix_sums(prefix_sum@),
            exclude matches Some(e) ==> e < prefix_sum@.len(),
            total_without(prefix_sum@, exclude) > 0,
        ensures
            drawn(prefix_sum@, exclude, r as int),
    {
        let ghost p = prefix_sum@;
        let l = prefix_sum.len();
        let excluded_value: u64 = match exclude {
            Some(e) => if e > 0 {
                prefix_sum[e] - prefix_sum[e - 1]
            } else {
                prefix_sum[e]
            },
            None => 0,
        };
        proof {
            lemma_sums_increase(p, 0, l - 1);
            if let Some(e) = exclude {
                lemma_sums_increase(p, e as int, l - 1);
                if e > 0 {
                    lemma_sums_increase(p, e - 1, l - 1);
                }
            }
        }
        let total = prefix_sum[l - 1] - excluded_value;
        let s = rng_u64(rng, 0, total);
        let r = Self::pick(prefix_sum, exclude, s);
        proof {
            assert(picked(p, exclude, s as int, r as int));
        }
        r
    }

    /// Traffic over `floors` floors with the given source and destination
    /// weights and one request every `period` ms.
    pub fn new(floors: usize, src_distr: Vec<u64>, dest_distr: Vec<u64>, period: u64) -> (t: Self)
        requires
            src_distr@.len() <= floors,
            dest_distr@.len() <= floors,
            sum_to(padded(src_distr@, floors as nat), floors as int) <= u64::MAX,
            sum_to(padded(dest_distr@, floors as nat), floors as int) <= u64::MAX,
        ensures
            t.spec_floors() == floors,
            t.spec_period() == period,
            forall|i: int| 0 <= i < floors ==> #[trigger] t.src_sums()[i] == sum_to(padded(src_distr@, floors as nat), i + 1),
            forall|i: int| 0 <= i < floors ==> #[trigger] t.dest_sums()[i] == sum_to(padded(dest_distr@, floors as nat), i + 1),
            t.ready(0) <==> period > 0 && can_pair(t.src_sums(), t.dest_sums()) && can_pair(
                t.dest_sums(),
                t.src_sums(),
            ),
            forall|f: int| #[trigger] t.fits_floors(f) <==> floors <= f,
            t.endless(),
    {
        let ghost ws = padded(src_distr@, floors as nat);
        let ghost wd = padded(dest_distr@, floors as nat);
        let t = Random {
            src_distr: Self::prefix_sum(floors, src_distr),
            dest_distr: Self::prefix_sum(floors, dest_distr),
            period,
            rng: rng_with_seed(8549089435),
        };
        proof {
            lemma_padded_sums(ws, floors as int);
            lemma_padded_sums(wd, floors as int);
        }
        t
    }

    /// Sets the time between requests.
    pub fn scale(&mut self, period: u64)
        ensures
            final(self).spec_period() == period,
            final(self).spec_floors() == old(self).spec_floors(),
            final(self).src_sums() == old(self).src_sums(),
            final(self).dest_sums() == old(self).dest_sums(),
            forall|f: int| #[trigger] final(self).fits_floors(f) == old(self).fits_floors(f),
            forall|t: int| #[trigger] old(self).ready(t) && period > 0 ==> final(self).ready(t),
    {
        self.period = period;
    }

    pub closed spec fn spec_floors(&self) -> nat {
        self.src_distr@.len()
    }

    pub closed spec fn spec_period(&self) -> u64 {
        self.period
    }

    /// Running sums of the source weights.
    pub closed spec fn src_sums(&self) -> Seq<u64> {
        self.src_distr@
    }

    /// Running sums of the destination weights.
    pub closed spec fn dest_sums(&self) -> Seq<u64> {
        self.dest_distr@
    }
}

proof fn lemma_sum_to_monotone(w: Seq<u64>, i: int, j: int)
    requires
        0 <= i <= j <= w.len(),
    ensures
        sum_to(w, i) <= sum_to(w, j),
    decreases j - i,
{
    if i < j {
        lemma_sum_to_monotone(w, i, j - 1);
    }
}

/// Running sums of weights never decrease.
proof fn lemma_padded_sums(w: Seq<u64>, n: int)
    requires
        0 <= n <= w.len(),
    ensures
        forall|i: int| 0 < i < n ==> #[trigger] sum_to(w, i + 1) >= sum_to(w, i),
{
}

impl Traffic for Random {
    /// The weights and the period stay; a fair coin decides which floor is
    /// drawn first, and the other is drawn leaving the first out.
    open spec fn made(&self, after: &Self, time: int, r: (usize, usize)) -> bool {
        &&& after.spec_period() == self.spec_period()
        &&& after.src_sums() == self.src_sums()
        &&& after.dest_sums() == self.dest_sums()
        &&& (drawn(self.src_sums(), None, r.0 as int) && drawn(self.dest_sums(), Some(r.0), r.1 as int) || drawn(
            self.dest_sums(),
            None,
            r.1 as int,
        ) && drawn(self.src_sums(), Some(r.1), r.0 as int))
    }

    open spec fn spec_name(&self) -> Seq<char> {
        "Random"@
    }

    closed spec fn fits_floors(&self, floors: int) -> bool {
        self.src_distr@.len() <= floors
    }

    closed spec fn ready(&self, now: int) -> bool {
        &&& self.dest_distr@.len() == self.src_distr@.len()
        &&& is_prefix_sums(self.src_distr@)
        &&& is_prefix_sums(self.dest_distr@)
        &&& can_pair(self.src_distr@, self.dest_distr@)
        &&& can_pair(self.dest_distr@, self.src_distr@)
        &&& self.period > 0
    }

    open spec fn spec_when(&self) -> u64 {
        self.spec_period()
    }

    closed spec fn can_next(&self) -> bool {
        true
    }

    closed spec fn endless(&self) -> bool {
        true
    }

    closed spec fn zero_run(&self, now: int) -> nat {
        0
    }

    proof fn lemma_ready_later(&self, t1: int, t2: int) {
    }

    proof fn lemma_when_finite(&self, now: int) {
    }

    proof fn lemma_endless(&self, now: int) {
    }

    fn when(&self) -> (w: u64) {
        self.period
    }

    /// A fair coin decides which floor is drawn first; the other is drawn
    /// leaving the first out.
    fn next(&mut self, time: u64) -> (r: (usize, usize)) {
        let ghost p = self.src_distr@;
        let ghost q = self.dest_distr@;
        if rng_bool(&mut self.rng) {
            let src = Self::sample(&mut self.rng, &self.src_distr, None);
            proof {
                lemma_drawn_weighs(p, None, src as int);
            }
            let dest = Self::sample(&mut self.rng, &self.dest_distr, Some(src));
            (src, dest)
        } else {
            let dest = Self::sample(&mut self.rng, &self.dest_distr, None);
            proof {
                lemma_drawn_weighs(q, None, dest as int);
            }
            let src = Self::sample(&mut self.rng, &self.src_distr, Some(dest));
            (src, dest)
        }
    }

    fn name(&self) -> (r: &'static str)
        ensures
            r@ == "Random"@,
    {
        "Random"
    }
}

/// A floor that a draw falls on has some weight, and is not the one left
/// out.
proof fn lemma_drawn_weighs(p: Seq<u64>, e: Option<usize>, r: int)
    requires
        drawn(p, e, r),
        r <= usize::MAX,
    ensures
        weight(p, r) > 0,
        e != Some(r as usize),
{
    let s = choose|s: int| 0 <= s < total_without(p, e) && #[trigger] picked(p, e, s, r);
    assert(picked(p, e, s, r));
    let hi = sum_without(p, e, r);
    assert(s < hi);
    if r == 0 {
        assert(hi == p[0]);
    } else if e != Some((r - 1) as usize) {
        let lo = sum_without(p, e, r - 1);
        assert(lo <= s);
        assert(hi - lo == weight(p, r));
    } else if r > 1 {
        let x = e->0;
        assert(x == (r - 1) as usize);
        assert(x == r - 1);
        assert(e != Some((r - 2) as usize));
        let lo = sum_without(p, e, r - 2);
        assert(lo <= s);
        assert(lo == p[r - 2]);
        assert(hi == p[r] - (p[r - 1] - p[r - 2]));
    } else {
        assert(hi == p[1] - p[0]);
    }
}

} // verus!
