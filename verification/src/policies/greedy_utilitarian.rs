use crate::building::{Building, Person, TIME_LIMIT};
use crate::policy::{Decision, Policy};
use vstd::arithmetic::div_mod::{lemma_fundamental_div_mod, lemma_fundamental_div_mod_converse, lemma_mod_pos_bound};
use vstd::prelude::*;

verus! {

/// Pair `i` comes before pair `j` when it was requested more often, or as
/// often and it has the lower index.
pub open spec fn before(c: Seq<usize>, i: int, j: int) -> bool {
    c[i] > c[j] || (c[i] == c[j] && i < j)
}

/// Index `v` occurs in `o`.
pub open spec fn lists(o: Seq<usize>, v: int) -> bool {
    exists|k: int| 0 <= k < o.len() && o[k] == v
}

/// `o` lists indices of `c` from `lo` up to `hi` in `before` order.
pub open spec fn ordered_in(c: Seq<usize>, o: Seq<usize>, lo: int, hi: int) -> bool {
    &&& forall|k: int| 0 <= k < o.len() ==> lo <= #[trigger] o[k] < hi
    &&& forall|a: int, b: int| 0 <= a < b < o.len() ==> before(c, #[trigger] o[a] as int, #[trigger] o[b] as int)
}

/// `o` lists all the indices of `c` from `lo` up to `hi`, and only those,
/// in `before` order.
pub open spec fn sorted_range(c: Seq<usize>, o: Seq<usize>, lo: int, hi: int) -> bool {
    &&& ordered_in(c, o, lo, hi)
    &&& forall|v: int| lo <= v < hi ==> #[trigger] lists(o, v)
}

/// `o` is the order in which the pairs are handed out: every index of `c`
/// once, most requested first, ties by index.
pub open spec fn by_count(c: Seq<usize>, o: Seq<usize>) -> bool {
    o.len() == c.len() && sorted_range(c, o, 0, c.len() as int)
}

/// The counts of a list of pairs.
pub open spec fn counts_of(v: Seq<(usize, usize, usize)>) -> Seq<usize> {
    v.map_values(|t: (usize, usize, usize)| t.0)
}

/// Merges two sorted runs of disjoint index ranges.
fn merge(v: &Vec<(usize, usize, usize)>, a: Vec<usize>, b: Vec<usize>, lo: Ghost<int>, mid: Ghost<int>, hi: Ghost<int>) -> (r: Vec<usize>)
    requires
        sorted_range(counts_of(v@), a@, lo@, mid@),
        sorted_range(counts_of(v@), b@, mid@, hi@),
        0 <= lo@ <= mid@ <= hi@ <= v@.len(),
        a@.len() + b@.len() <= usize::MAX,
    ensures
        r@.len() == a@.len() + b@.len(),
        sorted_range(counts_of(v@), r@, lo@, hi@),
{
    let ghost c = counts_of(v@);
    let mut r: Vec<usize> = Vec::new();
    let mut i: usize = 0;
    let mut j: usize = 0;
    while i < a.len() || j < b.len()
        invariant
            sorted_range(c, a@, lo@, mid@),
            sorted_range(c, b@, mid@, hi@),
            c == counts_of(v@),
            c.len() == v@.len(),
            0 <= lo@ <= mid@ <= hi@ <= v@.len(),
            a@.len() + b@.len() <= usize::MAX,
            i <= a@.len(),
            j <= b@.len(),
            r@.len() == i + j,
            ordered_in(c, r@, lo@, hi@),
            forall|k: int, x: int| 0 <= k < r@.len() && i <= x < a@.len() ==> before(c, #[trigger] r@[k] as int, #[trigger] a@[x] as int),
            forall|k: int, x: int| 0 <= k < r@.len() && j <= x < b@.len() ==> before(c, #[trigger] r@[k] as int, #[trigger] b@[x] as int),
            forall|x: int| 0 <= x < i ==> lists(r@, #[trigger] a@[x] as int),
            forall|x: int| 0 <= x < j ==> lists(r@, #[trigger] b@[x] as int),
        decreases a@.len() + b@.len() - i - j,
    {
        let take_a = if i < a.len() && j < b.len() {
            let x = a[i];
            let y = b[j];
            v[x].0 > v[y].0 || (v[x].0 == v[y].0 && x < y)
        } else {
            i < a.len()
        };
        let ghost r0 = r@;
        if take_a {
            let x = a[i];
            proof {
                assert(c[x as int] == v@[x as int].0);
                if j < b@.len() {
                    assert(c[b@[j as int] as int] == v@[b@[j as int] as int].0);
                }
                assert forall|y: int| j <= y < b@.len() implies before(c, x as int, #[trigger] b@[y] as int) by {
                    assert(c[b@[j as int] as int] == v@[b@[j as int] as int].0);
                    if y > j {
                        assert(before(c, b@[j as int] as int, b@[y] as int));
                    }
                }
                assert forall|y: int| i + 1 <= y < a@.len() implies before(c, x as int, #[trigger] a@[y] as int) by {
                    assert(before(c, a@[i as int] as int, a@[y] as int));
                }
            }
            r.push(x);
            i = i + 1;
        } else {
            let y = b[j];
            proof {
                assert(c[y as int] == v@[y as int].0);
                if i < a@.len() {
                    assert(c[a@[i as int] as int] == v@[a@[i as int] as int].0);
                    assert(a@[i as int] < mid@ && mid@ <= y);
                }
                assert forall|x: int| i <= x < a@.len() implies before(c, y as int, #[trigger] a@[x] as int) by {
                    assert(c[a@[i as int] as int] == v@[a@[i as int] as int].0);
                    assert(a@[i as int] < mid@ && mid@ <= y);
                    if x > i {
                        assert(before(c, a@[i as int] as int, a@[x] as int));
                    }
                }
                assert forall|x: int| j + 1 <= x < b@.len() implies before(c, y as int, #[trigger] b@[x] as int) by {
                    assert(before(c, b@[j as int] as int, b@[x] as int));
                }
            }
            r.push(y);
            j = j + 1;
        }
        proof {
            let z = r@[r@.len() - 1];
            assert forall|p: int, q: int| 0 <= p < q < r@.len() implies before(c, #[trigger] r@[p] as int, #[trigger] r@[q] as int) by {
                if q < r0.len() {
                    assert(r@[p] == r0[p] && r@[q] == r0[q]);
                } else {
                    assert(r@[p] == r0[p]);
                }
            }
            assert(lists(r@, z as int)) by {
                assert(r@[r@.len() - 1] == z);
            }
            assert forall|w: int| lists(r0, w) implies lists(r@, w) by {
                let k = choose|k: int| 0 <= k < r0.len() && r0[k] == w;
                assert(r@[k] == r0[k]);
            }
        }
    }
    proof {
        assert forall|v: int| lo@ <= v < hi@ implies #[trigger] lists(r@, v) by {
            if v < mid@ {
                assert(lists(a@, v));
                let x = choose|x: int| 0 <= x < a@.len() && a@[x] == v;
                assert(lists(r@, a@[x] as int));
            } else {
                assert(lists(b@, v));
                let x = choose|x: int| 0 <= x < b@.len() && b@[x] == v;
                assert(lists(r@, b@[x] as int));
            }
        }
    }
    r
}

/// The indices from `lo` up to `hi` in `before` order.
fn sort_range(v: &Vec<(usize, usize, usize)>, lo: usize, hi: usize) -> (r: Vec<usize>)
    requires
        lo <= hi <= v@.len(),
    ensures
        r@.len() == hi - lo,
        sorted_range(counts_of(v@), r@, lo as int, hi as int),
    decreases hi - lo,
{
    if hi - lo == 0 {
        Vec::new()
    } else if hi - lo == 1 {
        let mut r: Vec<usize> = Vec::new();
        r.push(lo);
        proof {
            assert(r@[0] == lo);
            assert(lists(r@, lo as int));
        }
        r
    } else {
        let mid = lo + (hi - lo) / 2;
        let a = sort_range(v, lo, mid);
        let b = sort_range(v, mid, hi);
        merge(v, a, b, Ghost(lo as int), Ghost(mid as int), Ghost(hi as int))
    }
}


/// `e` is the first of the least loaded elevators.
pub open spec fn is_first_min(loads: Seq<usize>, e: int) -> bool {
    &&& 0 <= e < loads.len()
    &&& forall|j: int| 0 <= j < loads.len() ==> loads[e] <= #[trigger] loads[j]
    &&& forall|j: int| 0 <= j < e ==> loads[e] < #[trigger] loads[j]
}

/// The first of the least loaded elevators.
pub open spec fn first_min(loads: Seq<usize>) -> int {
    choose|e: int| is_first_min(loads, e)
}

/// `a + b`, wrapping around at `usize::MAX` as `+` does in release builds.
pub open spec fn wrap_add(a: usize, b: usize) -> usize {
    if a + b > usize::MAX {
        (a + b - usize::MAX - 1) as usize
    } else {
        (a + b) as usize
    }
}

fn wrapping_sum(a: usize, b: usize) -> (r: usize)
    ensures
        r == wrap_add(a, b),
{
    if a <= usize::MAX - b {
        a + b
    } else {
        b - (usize::MAX - a) - 1
    }
}

/// Hands out the first `k` pairs of `o` in turn, each to the least loaded
/// elevator, whose load grows by the pair's count. Gives the loads and the
/// assignments, starting from `a0`.
pub open spec fn greedy(c: Seq<usize>, o: Seq<usize>, elevators: nat, a0: Seq<usize>, k: nat) -> (Seq<usize>, Seq<usize>)
    decreases k,
{
    if k == 0 {
        (Seq::new(elevators, |i: int| 0usize), a0)
    } else {
        let (loads, a) = greedy(c, o, elevators, a0, (k - 1) as nat);
        let idx = o[k - 1] as int;
        let e = first_min(loads);
        (loads.update(e, wrap_add(loads[e], c[idx])), a.update(idx, e as usize))
    }
}

/// `a1` is what handing out all pairs, most requested first, makes of `a0`.
pub open spec fn reassigned(c: Seq<usize>, a0: Seq<usize>, elevators: nat, a1: Seq<usize>) -> bool {
    exists|o: Seq<usize>| #[trigger] by_count(c, o) && a1 == greedy(c, o, elevators, a0, o.len()).1
}

/// Two lists of the same indices, both in `before` order, are equal.
proof fn lemma_ordered_unique(c: Seq<usize>, x: Seq<usize>, y: Seq<usize>)
    requires
        forall|a: int, b: int| 0 <= a < b < x.len() ==> before(c, #[trigger] x[a] as int, #[trigger] x[b] as int),
        forall|a: int, b: int| 0 <= a < b < y.len() ==> before(c, #[trigger] y[a] as int, #[trigger] y[b] as int),
        forall|v: int| #[trigger] lists(x, v) <==> lists(y, v),
    ensures
        x == y,
    decreases x.len(),
{
    if x.len() == 0 {
        if y.len() > 0 {
            assert(lists(y, y[0] as int));
            assert(lists(x, y[0] as int));
        }
        assert(x =~= y);
    } else if y.len() == 0 {
        assert(lists(x, x[0] as int));
        assert(lists(y, x[0] as int));
    } else {
        assert(lists(x, x[0] as int));
        assert(lists(y, y[0] as int));
        assert(lists(y, x[0] as int));
        assert(lists(x, y[0] as int));
        let j = choose|j: int| 0 <= j < y.len() && y[j] == x[0];
        let i = choose|i: int| 0 <= i < x.len() && x[i] == y[0];
        if j > 0 {
            assert(before(c, y[0] as int, y[j] as int));
            if i > 0 {
                assert(before(c, x[0] as int, x[i] as int));
            }
        }
        assert(x[0] == y[0]);
        let x1 = x.drop_first();
        let y1 = y.drop_first();
        assert forall|a: int, b: int| 0 <= a < b < x1.len() implies before(c, #[trigger] x1[a] as int, #[trigger] x1[b] as int) by {
            assert(x1[a] == x[a + 1] && x1[b] == x[b + 1]);
        }
        assert forall|a: int, b: int| 0 <= a < b < y1.len() implies before(c, #[trigger] y1[a] as int, #[trigger] y1[b] as int) by {
            assert(y1[a] == y[a + 1] && y1[b] == y[b + 1]);
        }
        assert forall|v: int| #[trigger] lists(x1, v) <==> lists(y1, v) by {
            if lists(x1, v) {
                let k = choose|k: int| 0 <= k < x1.len() && x1[k] == v;
                assert(x[k + 1] == v);
                assert(before(c, x[0] as int, x[k + 1] as int));
                assert(lists(x, v));
                let m = choose|m: int| 0 <= m < y.len() && y[m] == v;
                assert(m != 0);
                assert(y1[m - 1] == v);
            }
            if lists(y1, v) {
                let k = choose|k: int| 0 <= k < y1.len() && y1[k] == v;
                assert(y[k + 1] == v);
                assert(before(c, y[0] as int, y[k + 1] as int));
                assert(lists(y, v));
                assert(lists(x, v));
                let m = choose|m: int| 0 <= m < x.len() && x[m] == v;
                assert(m != 0);
                assert(x1[m - 1] == v);
            }
        }
        lemma_ordered_unique(c, x1, y1);
        assert(x =~= y) by {
            assert forall|k: int| 0 <= k < x.len() implies x[k] == y[k] by {
                if k > 0 {
                    assert(x[k] == x1[k - 1] && y[k] == y1[k - 1]);
                }
            }
        }
    }
}

/// There is one order in which the pairs are handed out.
pub proof fn lemma_by_count_unique(c: Seq<usize>, o1: Seq<usize>, o2: Seq<usize>)
    requires
        by_count(c, o1),
        by_count(c, o2),
    ensures
        o1 == o2,
{
    assert forall|v: int| #[trigger] lists(o1, v) <==> lists(o2, v) by {
        if lists(o1, v) {
            let k = choose|k: int| 0 <= k < o1.len() && o1[k] == v;
            assert(0 <= o1[k] < c.len());
        }
        if lists(o2, v) {
            let k = choose|k: int| 0 <= k < o2.len() && o2[k] == v;
            assert(0 <= o2[k] < c.len());
        }
    }
    lemma_ordered_unique(c, o1, o2);
}

/// Reassigning the pairs has one outcome.
pub proof fn lemma_reassigned_unique(c: Seq<usize>, a0: Seq<usize>, elevators: nat, a1: Seq<usize>, a2: Seq<usize>)
    requires
        reassigned(c, a0, elevators, a1),
        reassigned(c, a0, elevators, a2),
    ensures
        a1 == a2,
{
    let o1 = choose|o: Seq<usize>| #[trigger] by_count(c, o) && a1 == greedy(c, o, elevators, a0, o.len()).1;
    let o2 = choose|o: Seq<usize>| #[trigger] by_count(c, o) && a2 == greedy(c, o, elevators, a0, o.len()).1;
    lemma_by_count_unique(c, o1, o2);
}

/// All `n` pairs counted `count` times each.
pub open spec fn same_counts(n: nat, count: usize) -> Seq<usize> {
    Seq::new(n, |i: int| count)
}

/// The indices below `n` in order.
pub open spec fn in_order(n: nat) -> Seq<usize> {
    Seq::new(n, |i: int| i as usize)
}

/// The loads after handing out `k` pairs counted once each, round robin.
pub open spec fn round_robin_loads(elevators: nat, k: nat) -> Seq<usize> {
    Seq::new(elevators, |j: int| (k / elevators + if j < k % elevators { 1int } else { 0int }) as usize)
}

/// Counting on by one: the next quotient and remainder by `d`.
proof fn lemma_count_on(k1: int, d: int)
    requires
        0 <= k1,
        d > 0,
    ensures
        0 <= k1 % d < d,
        k1 % d <= k1,
        0 <= k1 / d <= k1,
        k1 % d + 1 < d ==> (k1 + 1) / d == k1 / d && (k1 + 1) % d == k1 % d + 1,
        k1 % d + 1 == d ==> (k1 + 1) / d == k1 / d + 1 && (k1 + 1) % d == 0,
{
    lemma_fundamental_div_mod(k1, d);
    lemma_mod_pos_bound(k1, d);
    let q = k1 / d;
    let r = k1 % d;
    assert(d * q == q * d) by (nonlinear_arith);
    assert(q >= 0) by (nonlinear_arith)
        requires
            k1 == q * d + r,
            0 <= r < d,
            k1 >= 0,
    ;
    assert(q <= k1 && r <= k1) by (nonlinear_arith)
        requires
            k1 == q * d + r,
            0 <= r,
            d >= 1,
            q >= 0,
    ;
    if r + 1 < d {
        lemma_fundamental_div_mod_converse(k1 + 1, d, q, r + 1);
    } else {
        assert((q + 1) * d == q * d + d) by (nonlinear_arith);
        lemma_fundamental_div_mod_converse(k1 + 1, d, q + 1, 0);
    }
}

proof fn lemma_round_robin(n: nat, elevators: nat, a0: Seq<usize>, k: nat)
    requires
        elevators > 0,
        k <= n <= usize::MAX,
        a0.len() == n,
    ensures
        greedy(same_counts(n, 1), in_order(n), elevators, a0, k).0 == round_robin_loads(elevators, k),
        greedy(same_counts(n, 1), in_order(n), elevators, a0, k).1.len() == n,
        forall|j: int|
            0 <= j < n ==> (#[trigger] greedy(same_counts(n, 1), in_order(n), elevators, a0, k).1[j]) as int == if j < k {
                j % (elevators as int)
            } else {
                a0[j] as int
            },
    decreases k,
{
    let c = same_counts(n, 1);
    let o = in_order(n);
    if k == 0 {
        assert(0int / (elevators as int) == 0 && 0int % (elevators as int) == 0) by (nonlinear_arith)
            requires
                elevators > 0,
        ;
        assert(greedy(c, o, elevators, a0, 0).0 =~= round_robin_loads(elevators, 0));
    } else {
        let k1 = (k - 1) as nat;
        lemma_round_robin(n, elevators, a0, k1);
        let loads = greedy(c, o, elevators, a0, k1).0;
        let a = greedy(c, o, elevators, a0, k1).1;
        let d = elevators as int;
        lemma_count_on(k1 as int, d);
        let q = k1 as int / d;
        let r = k1 as int % d;
        assert(is_first_min(loads, r));
        lemma_first_min_unique(loads, r);
        assert(o[k1 as int] == k1);
        assert(c[k1 as int] == 1);
        assert(loads[r] == q);
        assert(wrap_add(loads[r], 1) == q + 1);
        assert(greedy(c, o, elevators, a0, k).0 =~= round_robin_loads(elevators, k));
        assert forall|j: int| 0 <= j < n implies (#[trigger] greedy(c, o, elevators, a0, k).1[j]) as int == if j < k {
            j % d
        } else {
            a0[j] as int
        } by {
            if j == k1 {
                assert(0 <= r <= k1);
                assert(greedy(c, o, elevators, a0, k).1[j] == r as usize);
                assert((r as usize) as int == r);
            } else {
                assert(greedy(c, o, elevators, a0, k).1[j] == a[j]);
            }
        }
    }
}

/// With every pair counted once, pair `k` goes to elevator `k` modulo the
/// number of elevators.
pub proof fn lemma_once_each_round_robin(n: nat, elevators: nat, a0: Seq<usize>, a1: Seq<usize>)
    requires
        elevators > 0,
        n <= usize::MAX,
        a0.len() == n,
        reassigned(same_counts(n, 1), a0, elevators, a1),
    ensures
        a1.len() == n,
        forall|k: int| 0 <= k < n ==> #[trigger] a1[k] == k % (elevators as int),
{
    let c = same_counts(n, 1);
    let o = in_order(n);
    assert(by_count(c, o)) by {
        assert forall|v: int| 0 <= v < n implies #[trigger] lists(o, v) by {
            assert(o[v] == v);
        }
    }
    let o1 = choose|x: Seq<usize>| #[trigger] by_count(c, x) && a1 == greedy(c, x, elevators, a0, x.len()).1;
    lemma_by_count_unique(c, o, o1);
    lemma_round_robin(n, elevators, a0, n);
    assert forall|k: int| 0 <= k < n implies #[trigger] a1[k] == k % (elevators as int) by {
        assert(a1[k] == greedy(c, o, elevators, a0, n).1[k]);
    }
}

proof fn lemma_greedy_len(c: Seq<usize>, o: Seq<usize>, elevators: nat, a0: Seq<usize>, k: nat)
    requires
        elevators > 0,
        k <= o.len(),
        forall|x: int| 0 <= x < o.len() ==> #[trigger] o[x] < a0.len(),
    ensures
        greedy(c, o, elevators, a0, k).0.len() == elevators,
        greedy(c, o, elevators, a0, k).1.len() == a0.len(),
    decreases k,
{
    if k > 0 {
        lemma_greedy_len(c, o, elevators, a0, (k - 1) as nat);
        let loads = greedy(c, o, elevators, a0, (k - 1) as nat).0;
        lemma_first_min_exists(loads);
    }
}

/// A nonempty list of loads has a first least loaded elevator.
proof fn lemma_first_min_exists(loads: Seq<usize>)
    requires
        loads.len() > 0,
    ensures
        is_first_min(loads, first_min(loads)),
    decreases loads.len(),
{
    if loads.len() == 1 {
        assert(is_first_min(loads, 0));
    } else {
        let init = loads.drop_last();
        lemma_first_min_exists(init);
        let m = first_min(init);
        let last = loads.len() - 1;
        if loads[last] < loads[m] {
            assert(is_first_min(loads, last)) by {
                assert forall|j: int| 0 <= j < last implies loads[last] < #[trigger] loads[j] by {
                    assert(init[j] == loads[j]);
                }
            }
        } else {
            assert(is_first_min(loads, m)) by {
                assert forall|j: int| 0 <= j < loads.len() implies loads[m] <= #[trigger] loads[j] by {
                    if j < last {
                        assert(init[j] == loads[j]);
                    }
                }
                assert forall|j: int| 0 <= j < m implies loads[m] < #[trigger] loads[j] by {
                    assert(init[j] == loads[j]);
                }
            }
        }
    }
}

/// The first least loaded elevator is unique.
proof fn lemma_first_min_unique(loads: Seq<usize>, e: int)
    requires
        is_first_min(loads, e),
    ensures
        first_min(loads) == e,
{
    let f = first_min(loads);
    assert(is_first_min(loads, f));
    if f < e {
        assert(loads[e] < loads[f]);
    } else if e < f {
        assert(loads[f] < loads[e]);
    }
}

/// The first of the least loaded elevators.
fn least_loaded(loads: &Vec<usize>) -> (e: usize)
    requires
        loads@.len() > 0,
    ensures
        e == first_min(loads@),
{
    let mut best: usize = 0;
    let mut i: usize = 1;
    while i < loads.len()
        invariant
            1 <= i <= loads@.len(),
            best < i,
            forall|j: int| 0 <= j < i ==> loads@[best as int] <= #[trigger] loads@[j],
            forall|j: int| 0 <= j < best ==> loads@[best as int] < #[trigger] loads@[j],
        decreases loads@.len() - i,
    {
        if loads[i] < loads[best] {
            best = i;
        }
        i = i + 1;
    }
    proof {
        lemma_first_min_unique(loads@, best as int);
    }
    best
}

/// How many of the passengers are headed for floor `f`.
pub open spec fn count_headed(ps: Seq<Person>, f: int) -> nat
    decreases ps.len(),
{
    if ps.len() == 0 {
        0
    } else {
        count_headed(ps.drop_last(), f) + if ps.last().dest == f { 1nat } else { 0nat }
    }
}

proof fn lemma_count_headed_le(ps: Seq<Person>, f: int)
    ensures
        count_headed(ps, f) <= ps.len(),
    decreases ps.len(),
{
    if ps.len() > 0 {
        lemma_count_headed_le(ps.drop_last(), f);
    }
}

/// How many people would enter or leave elevator `e` at floor `f`: those
/// waiting there for it, as far as there is room, and the passengers
/// headed there.
pub open spec fn exchange(b: &Building, e: int, f: int) -> int {
    let el = b.elevators@[e];
    let space = el.capacity - el.passengers@.len();
    let waiting = b.floors@[f].people@[e]@.len() as int;
    let incoming = if waiting <= space { waiting } else { space };
    incoming + count_headed(el.passengers@, f)
}

/// How long elevator `e` would take from now to reach floor `f`.
pub open spec fn travel(b: &Building, e: int, f: int) -> int {
    b.spec_arrival_time(e, f) - b.prev_time
}

/// People exchanged per second of travel, rounded to the nearest integer
/// (halves up); `u64::MAX` when no travel is needed.
pub open spec fn score(b: &Building, e: int, f: int) -> int {
    let t = travel(b, e, f);
    if t == 0 {
        u64::MAX as int
    } else {
        (2000 * exchange(b, e, f) + t) / (2 * t)
    }
}

/// `f` is the floor with people to exchange that has the highest score,
/// the lowest such floor on a tie.
pub open spec fn is_best_floor(b: &Building, e: int, f: int) -> bool {
    &&& 0 <= f < b.nfloors()
    &&& exchange(b, e, f) > 0
    &&& forall|g: int| 0 <= g < b.nfloors() && exchange(b, e, g) > 0 ==> score(b, e, f) >= #[trigger] score(b, e, g)
    &&& forall|g: int| 0 <= g < f && exchange(b, e, g) > 0 ==> score(b, e, f) > #[trigger] score(b, e, g)
}

/// Where elevator `e` should go next, if anywhere.
pub open spec fn best_floor(b: &Building, e: int) -> Option<usize> {
    if exists|f: int| is_best_floor(b, e, f) {
        Some((choose|f: int| is_best_floor(b, e, f)) as usize)
    } else {
        None
    }
}

/// Every elevator with a best floor heads there; the others keep their
/// destination.
pub open spec fn directed(b: &Building, dests: Seq<Option<usize>>) -> Seq<Option<usize>> {
    Seq::new(
        dests.len(),
        |e: int|
            match best_floor(b, e) {
                Some(f) => Some(f),
                None => dests[e],
            },
    )
}


/// How many of the passengers are headed for floor `f`.
fn headed_for(ps: &Vec<Person>, f: usize) -> (n: usize)
    ensures
        n == count_headed(ps@, f as int),
{
    let mut n: usize = 0;
    let mut i: usize = 0;
    while i < ps.len()
        invariant
            i <= ps@.len(),
            n == count_headed(ps@.take(i as int), f as int),
        decreases ps@.len() - i,
    {
        proof {
            assert(ps@.take(i + 1).drop_last() =~= ps@.take(i as int));
            lemma_count_headed_le(ps@.take(i as int), f as int);
        }
        if ps[i].dest == f {
            n = n + 1;
        }
        i = i + 1;
    }
    proof {
        assert(ps@.take(i as int) =~= ps@);
    }
    n
}

/// Where elevator `e` should go next, if anywhere.
fn best_floor_of(b: &Building, e: usize) -> (r: Option<usize>)
    requires
        b.runnable(),
        e < b.nelevators(),
    ensures
        r == best_floor(b, e as int),
{
    let nf = b.floors.len();
    let mut best: Option<(u64, usize)> = None;
    let mut f: usize = 0;
    proof {
        assert(b.elevator_ok(b.elevators@[e as int]));
    }
    while f < nf
        invariant
            nf == b.nfloors(),
            f <= nf,
            b.runnable(),
            e < b.nelevators(),
            b.elevator_ok(b.elevators@[e as int]),
            best matches Some((s, g)) ==> {
                &&& g < f
                &&& is_best_floor_so_far(b, e as int, g as int, f as int)
                &&& s == score(b, e as int, g as int)
            },
            best is None ==> forall|h: int| 0 <= h < f ==> #[trigger] exchange(b, e as int, h) == 0,
        decreases nf - f,
    {
        let el = &b.elevators[e];
        let space_left = el.capacity - el.passengers.len();
        proof {
            assert(b.floor_ok(f as int));
        }
        let waiting = b.floors[f].people[e].len();
        let incoming = if waiting <= space_left {
            waiting
        } else {
            space_left
        };
        let outgoing = headed_for(&el.passengers, f);
        proof {
            lemma_count_headed_le(el.passengers@, f as int);
        }
        let exchange = incoming + outgoing;
        if exchange != 0 {
            proof {
                b.lemma_arrival_fits(e as int, f as int);
            }
            let travel_time = b.arrival_time(e, f) - b.prev_time;
            let score: u64 = if travel_time == 0 {
                u64::MAX
            } else {
                (2000 * exchange as u64 + travel_time) / (2 * travel_time)
            };
            match best {
                None => {
                    best = Some((score, f));
                },
                Some((s, g)) => {
                    if score > s {
                        best = Some((score, f));
                    }
                },
            }
        }
        f = f + 1;
    }
    match best {
        None => {
            proof {
                assert forall|h: int| !is_best_floor(b, e as int, h) by {
                    if 0 <= h < nf {
                        assert(exchange(b, e as int, h) == 0);
                    }
                }
            }
            None
        },
        Some((s, g)) => {
            proof {
                assert(is_best_floor(b, e as int, g as int));
                let c = choose|c: int| is_best_floor(b, e as int, c);
                if c < g {
                    assert(score(b, e as int, g as int) > score(b, e as int, c));
                } else if g < c {
                    assert(score(b, e as int, c) > score(b, e as int, g as int));
                }
            }
            Some(g)
        },
    }
}

/// Among the floors below `upto`, `f` has people to exchange, the highest
/// score and the lowest index among those with it.
pub open spec fn is_best_floor_so_far(b: &Building, e: int, f: int, upto: int) -> bool {
    &&& 0 <= f < upto
    &&& exchange(b, e, f) > 0
    &&& forall|g: int| 0 <= g < upto && exchange(b, e, g) > 0 ==> score(b, e, f) >= #[trigger] score(b, e, g)
    &&& forall|g: int| 0 <= g < f && exchange(b, e, g) > 0 ==> score(b, e, f) > #[trigger] score(b, e, g)
}


/// Positions in the table of (source, destination) pairs.
proof fn lemma_pair_index(src: int, dest: int, floors: int)
    requires
        0 <= src < floors,
        0 <= dest < floors,
    ensures
        0 <= src * floors + dest < floors * floors,
        (src * floors + dest) / floors == src,
        (src * floors + dest) % floors == dest,
{
    assert(src * floors + dest < floors * floors) by (nonlinear_arith)
        requires
            0 <= src < floors,
            0 <= dest < floors,
    ;
    assert(0 <= src * floors) by (nonlinear_arith)
        requires
            0 <= src,
            0 <= floors,
    ;
    lemma_fundamental_div_mod_converse(src * floors + dest, floors, src, dest);
}

/// The pair at position `i` of the table.
proof fn lemma_index_pair(i: int, floors: int)
    requires
        0 <= floors,
        0 <= i < floors * floors,
    ensures
        0 <= i / floors < floors,
        0 <= i % floors < floors,
        (i / floors) * floors + i % floors == i,
{
    assert(floors > 0) by (nonlinear_arith)
        requires
            0 <= floors,
            0 <= i < floors * floors,
    ;
    assert((i / floors) * floors + i % floors == i && 0 <= i % floors < floors && 0 <= i / floors < floors)
        by (nonlinear_arith)
        requires
            0 <= i < floors * floors,
            floors > 0,
    ;
}

/// Zeros, `n` of them.
fn zeros(n: usize) -> (r: Vec<usize>)
    ensures
        r@ == Seq::new(n as nat, |i: int| 0usize),
{
    let mut r: Vec<usize> = Vec::new();
    let mut i: usize = 0;
    while i < n
        invariant
            i <= n,
            r@ == Seq::new(i as nat, |j: int| 0usize),
        decreases n - i,
    {
        r.push(0);
        proof {
            assert(r@ =~= Seq::new((i + 1) as nat, |j: int| 0usize));
        }
        i = i + 1;
    }
    r
}

/// The table of all (source, destination) pairs, in order, with count zero.
pub open spec fn fresh_counts(v: Seq<(usize, usize, usize)>, floors: int) -> bool {
    &&& v.len() == floors * floors
    &&& forall|i: int| 0 <= i < v.len() ==> #[trigger] v[i] == (0usize, (i / floors) as usize, (i % floors) as usize)
}

/// Assigns elevators to (source, destination) pairs: the most requested
/// pairs are handed out first, each to the least loaded elevator.
pub struct GreedyUtilitarian {
    /// count, src, dest
    counts: Vec<(usize, usize, usize)>,
    refresh_time: u64,
    last_refresh: u64,
    floors: usize,
    elevators: usize,
    elevator_assignments: Vec<usize>,
}

/// `p` is `old` after a refresh check at time `now`, with the pair counts
/// `c`: when more than the refresh period has passed since the last
/// refresh, the pairs are reassigned by `c`, the counts start over, and the
/// period doubles.
pub open spec fn refreshed(p: &GreedyUtilitarian, old: &GreedyUtilitarian, c: Seq<usize>, now: int, elevators: nat) -> bool {
    if now - old.last_refresh() > old.refresh_period() {
        &&& p.counts() == Seq::new(c.len(), |i: int| 0usize)
        &&& reassigned(c, old.assignments(), elevators, p.assignments())
        &&& p.last_refresh() == now
        &&& p.refresh_period() == 2 * old.refresh_period()
    } else {
        &&& p.counts() == c
        &&& p.assignments() == old.assignments()
        &&& p.last_refresh() == old.last_refresh()
        &&& p.refresh_period() == old.refresh_period()
    }
}

impl GreedyUtilitarian {
    /// How often each (source, destination) pair was requested since the
    /// last refresh; pair `(s, d)` sits at `s * floors + d`.
    pub closed spec fn counts(&self) -> Seq<usize> {
        counts_of(self.counts@)
    }

    /// The (source, destination) pair each count is for.
    pub closed spec fn pairs(&self) -> Seq<(usize, usize)> {
        self.counts@.map_values(|c: (usize, usize, usize)| (c.1, c.2))
    }

    /// The elevator assigned to each (source, destination) pair.
    pub closed spec fn assignments(&self) -> Seq<usize> {
        self.elevator_assignments@
    }

    /// The time that must pass before the next refresh.
    pub closed spec fn refresh_period(&self) -> u64 {
        self.refresh_time
    }

    /// The time of the last refresh.
    pub closed spec fn last_refresh(&self) -> u64 {
        self.last_refresh
    }

    /// The table layout: one entry per pair, in order, and one elevator per
    /// pair.
    closed spec fn layout_ok(&self) -> bool {
        &&& self.floors * self.floors <= usize::MAX
        &&& self.counts@.len() == self.floors * self.floors
        &&& forall|i: int|
            0 <= i < self.counts@.len() ==> (#[trigger] self.counts@[i]).1 == i / (self.floors as int)
                && self.counts@[i].2 == i % (self.floors as int)
        &&& self.elevator_assignments@.len() == self.floors * self.floors
        &&& self.elevators > 0
        &&& forall|i: int| 0 <= i < self.elevator_assignments@.len() ==> #[trigger] self.elevator_assignments@[i] < self.elevators
    }

    /// Hands out the pairs, most requested first, each to the least loaded
    /// elevator; then the counts start over.
    fn assign(&mut self)
        requires
            old(self).layout_ok(),
        ensures
            final(self).layout_ok(),
            final(self).counts() == Seq::new(old(self).counts().len(), |i: int| 0usize),
            reassigned(old(self).counts(), old(self).assignments(), old(self).elevators as nat, final(self).assignments()),
            final(self).floors == old(self).floors,
            final(self).elevators == old(self).elevators,
            final(self).refresh_time == old(self).refresh_time,
            final(self).last_refresh == old(self).last_refresh,
    {
        let ghost c = self.counts();
        let ghost a0 = self.elevator_assignments@;
        let ghost ne = self.elevators as nat;
        let n = self.counts.len();
        let order = sort_range(&self.counts, 0, n);
        let mut loads = zeros(self.elevators);
        let mut k: usize = 0;
        while k < n
            invariant
                self.layout_ok(),
                self.counts() == c,
                c.len() == n,
                n == self.counts@.len(),
                ne == self.elevators,
                order@.len() == n,
                sorted_range(c, order@, 0, n as int),
                a0.len() == n,
                k <= n,
                loads@ == greedy(c, order@, ne, a0, k as nat).0,
                self.elevator_assignments@ == greedy(c, order@, ne, a0, k as nat).1,
                self.floors == old(self).floors,
                self.elevators == old(self).elevators,
                self.refresh_time == old(self).refresh_time,
                self.last_refresh == old(self).last_refresh,
            decreases n - k,
        {
            proof {
                lemma_greedy_len(c, order@, ne, a0, k as nat);
                lemma_index_pair(order@[k as int] as int, self.floors as int);
            }
            let idx = order[k];
            let (count, src, dest) = self.counts[idx];
            let e = least_loaded(&loads);
            proof {
                lemma_first_min_exists(loads@);
                assert(c[idx as int] == count);
            }
            let i = self.index(src, dest);
            self.elevator_assignments.set(i, e);
            let l = wrapping_sum(loads[e], count);
            loads.set(e, l);
            k = k + 1;
        }
        proof {
            assert(by_count(c, order@));
        }
        self.new_counts();
        proof {
            assert(self.counts() =~= Seq::new(n as nat, |i: int| 0usize));
            assert forall|i: int| 0 <= i < self.counts@.len() implies (#[trigger] self.counts@[i]).1 == i / (self.floors as int)
                && self.counts@[i].2 == i % (self.floors as int) by {
                lemma_index_pair(i, self.floors as int);
            }
        }
    }

    /// A table of all pairs with count zero.
    fn new_counts(&mut self)
        requires
            old(self).floors * old(self).floors <= usize::MAX,
        ensures
            fresh_counts(final(self).counts@, old(self).floors as int),
            final(self).floors == old(self).floors,
            final(self).elevators == old(self).elevators,
            final(self).refresh_time == old(self).refresh_time,
            final(self).last_refresh == old(self).last_refresh,
            final(self).elevator_assignments == old(self).elevator_assignments,
    {
        let nf = self.floors;
        let mut counts: Vec<(usize, usize, usize)> = Vec::with_capacity(nf * nf);
        let mut src: usize = 0;
        while src < nf
            invariant
                src <= nf,
                nf * nf <= usize::MAX,
                counts@.len() == src * nf,
                forall|i: int| 0 <= i < counts@.len() ==> #[trigger] counts@[i] == (0usize, (i / nf as int) as usize, (i % nf as int) as usize),
            decreases nf - src,
        {
            let mut dest: usize = 0;
            while dest < nf
                invariant
                    src < nf,
                    dest <= nf,
                    nf * nf <= usize::MAX,
                    counts@.len() == src * nf + dest,
                    forall|i: int| 0 <= i < counts@.len() ==> #[trigger] counts@[i] == (0usize, (i / nf as int) as usize, (i % nf as int) as usize),
                decreases nf - dest,
            {
                proof {
                    lemma_pair_index(src as int, dest as int, nf as int);
                }
                counts.push((0, src, dest));
                dest = dest + 1;
            }
            proof {
                assert(src * nf + nf == (src + 1) * nf) by (nonlinear_arith);
            }
            src = src + 1;
        }
        self.counts = counts;
    }

    /// Position of the pair (src, dest) in the table.
    fn index(&self, src: usize, dest: usize) -> (i: usize)
        requires
            src < self.floors,
            dest < self.floors,
            self.floors * self.floors <= usize::MAX,
        ensures
            i == src * self.floors + dest,
            i < self.floors * self.floors,
    {
        proof {
            lemma_pair_index(src as int, dest as int, self.floors as int);
        }
        src * self.floors + dest
    }
}


impl GreedyUtilitarian {
    /// Refreshes the assignments when more than the refresh period has
    /// passed since the last refresh, then doubles the period.
    fn maybe_refresh(&mut self, now: u64)
        requires
            old(self).layout_ok(),
            old(self).last_refresh <= now <= TIME_LIMIT,
        ensures
            final(self).layout_ok(),
            final(self).last_refresh <= now,
            final(self).floors == old(self).floors,
            final(self).elevators == old(self).elevators,
            refreshed(final(self), old(self), old(self).counts(), now as int, old(self).elevators as nat),
    {
        if now - self.last_refresh > self.refresh_time {
            self.assign();
            self.last_refresh = now;
            self.refresh_time = self.refresh_time * 2;
        }
    }

    /// Sends every elevator to its best floor, if it has one.
    fn set_dir(&self, b: &Building, out: &mut Decision)
        requires
            b.runnable(),
            old(out).fits(b),
        ensures
            final(out).dests@ == directed(b, old(out).dests@),
            final(out).waits@ == old(out).waits@,
            final(out).fits(b),
    {
        let n = out.dests.len();
        let mut e: usize = 0;
        while e < n
            invariant
                b.runnable(),
                n == b.nelevators(),
                n == old(out).dests@.len(),
                e <= n,
                out.waits@ == old(out).waits@,
                out.fits(b),
                forall|j: int| 0 <= j < e ==> #[trigger] out.dests@[j] == directed(b, old(out).dests@)[j],
                forall|j: int| e <= j < n ==> #[trigger] out.dests@[j] == old(out).dests@[j],
            decreases n - e,
        {
            let best = best_floor_of(b, e);
            if let Some(floor) = best {
                proof {
                    let f = choose|f: int| is_best_floor(b, e as int, f);
                    assert(is_best_floor(b, e as int, f));
                }
                out.dests.set(e, Some(floor));
            }
            e = e + 1;
        }
        proof {
            assert(out.dests@ =~= directed(b, old(out).dests@));
        }
    }
}

impl GreedyUtilitarian {
    /// A consistent policy keeps one count and one elevator per (source,
    /// destination) pair, and every such elevator exists.
    pub proof fn lemma_shape(&self, floors: int, elevators: int, now: int)
        requires
            self.inv(floors, elevators, now),
        ensures
            self.counts().len() == floors * floors,
            self.pairs().len() == floors * floors,
            forall|i: int| 0 <= i < floors * floors ==> #[trigger] self.pairs()[i] == (
            (i / floors) as usize,
            (i % floors) as usize,
            ),
            self.assignments().len() == floors * floors,
            forall|i: int| 0 <= i < floors * floors ==> #[trigger] self.assignments()[i] < elevators,
            self.last_refresh() <= now,
    {
    }

}

impl Policy for GreedyUtilitarian {
    /// A wait coming due changes nothing: this policy gives no wait
    /// commands.
    open spec fn wait_handled(&self, after: &Self, b: &Building, d0: &Decision, d1: &Decision, elevator: usize) -> bool {
        *after == *self && *d1 == *d0
    }

    fn waited(&mut self, _building: &Building, _decision: &mut Decision, _elevator: usize) {
    }

    /// What `request` does: the person's pair counts once more, the elevators
    /// head for their best floors, the pairs may be reassigned, and the person
    /// gets the elevator assigned to their pair.
    open spec fn requested(&self, after: &Self, b: &Building, d0: &Decision, d1: &Decision, person: &Person, e: usize) -> bool {
        &&& ({
            let i = person.src * b.nfloors() + person.dest;
            let c = self.counts().update(i, wrap_add(self.counts()[i], 1));
            &&& refreshed(after, self, c, b.prev_time as int, b.nelevators() as nat)
            &&& e == after.assignments()[i]
        })
        &&& d1.dests@ == directed(b, d0.dests@)
        &&& d1.waits@ == d0.waits@
    }

    /// What `arrival` does: the elevators head for their best floors and the
    /// pairs may be reassigned.
    open spec fn arrived(&self, after: &Self, b: &Building, d0: &Decision, d1: &Decision, elevator: usize) -> bool {
        &&& d1.dests@ == directed(b, d0.dests@)
        &&& d1.waits@ == d0.waits@
        &&& refreshed(after, self, self.counts(), b.prev_time as int, b.nelevators() as nat)
    }

    /// The table of pairs must fit in memory addresses.
    open spec fn supports(floors: int, elevators: int) -> bool {
        floors * floors <= usize::MAX
    }

    closed spec fn inv(&self, floors: int, elevators: int, now: int) -> bool {
        &&& self.floors == floors
        &&& self.elevators == elevators
        &&& self.layout_ok()
        &&& self.last_refresh <= now
    }

    proof fn lemma_inv_later(&self, floors: int, elevators: int, t1: int, t2: int) {
    }

    proof fn lemma_inv_supports(&self, floors: int, elevators: int, now: int) {
    }

    /// Every pair counts once, the pairs are handed out, and the counts
    /// start over.
    fn new(b: &Building) -> (p: Self)
        ensures
            p.counts() == Seq::new((b.nfloors() * b.nfloors()) as nat, |i: int| 0usize),
            reassigned(
                same_counts((b.nfloors() * b.nfloors()) as nat, 1),
                same_counts((b.nfloors() * b.nfloors()) as nat, 0),
                b.nelevators() as nat,
                p.assignments(),
            ),
            p.refresh_period() == 10_000,
            p.last_refresh() == 0,
    {
        let floors = b.floors.len();
        let mut res = GreedyUtilitarian {
            counts: Vec::new(),
            elevator_assignments: zeros(floors * floors),
            floors,
            elevators: b.elevators.len(),
            refresh_time: 10_000,
            last_refresh: 0,
        };
        res.new_counts();
        let n = res.counts.len();
        let mut i: usize = 0;
        while i < n
            invariant
                n == res.counts@.len(),
                n == floors * floors,
                floors == res.floors,
                i <= n,
                forall|j: int| 0 <= j < i ==> #[trigger] res.counts@[j] == (1usize, (j / floors as int) as usize, (j % floors as int) as usize),
                forall|j: int| i <= j < n ==> #[trigger] res.counts@[j] == (0usize, (j / floors as int) as usize, (j % floors as int) as usize),
                res.elevators == b.nelevators(),
                res.elevator_assignments@ == Seq::new((floors * floors) as nat, |j: int| 0usize),
                res.floors * res.floors <= usize::MAX,
                res.refresh_time == 10_000,
                res.last_refresh == 0,
            decreases n - i,
        {
            let (c, src, dest) = res.counts[i];
            res.counts.set(i, (c + 1, src, dest));
            i = i + 1;
        }
        proof {
            assert forall|j: int| 0 <= j < res.counts@.len() implies (#[trigger] res.counts@[j]).1 == j / (res.floors as int)
                && res.counts@[j].2 == j % (res.floors as int) by {
                lemma_index_pair(j, res.floors as int);
            }
            assert(res.counts() =~= Seq::new(n as nat, |j: int| 1usize));
        }
        let ghost a0 = res.elevator_assignments@;
        res.assign();
        res
    }

    /// The elevators head for their best floors; the pairs may be
    /// reassigned.
    fn arrival(&mut self, b: &Building, decision: &mut Decision, elevator: usize)
        ensures
            old(self).arrived(final(self), b, old(decision), final(decision), elevator),
    {
        self.set_dir(b, decision);
        self.maybe_refresh(b.prev_time);
    }

    /// The person's pair counts once more; the elevators head for their
    /// best floors; the pairs may be reassigned; the person gets the
    /// elevator assigned to their pair.
    fn request(&mut self, b: &Building, decision: &mut Decision, person: &Person) -> (e: usize)
        ensures
            old(self).requested(final(self), b, old(decision), final(decision), person, e),
    {
        let i = self.index(person.src, person.dest);
        let (c, src, dest) = self.counts[i];
        let c1 = wrapping_sum(c, 1);
        self.counts.set(i, (c1, src, dest));
        proof {
            assert(self.counts() =~= old(self).counts().update(i as int, wrap_add(old(self).counts()[i as int], 1)));
        }
        self.set_dir(b, decision);
        self.maybe_refresh(b.prev_time);
        self.elevator_assignments[i]
    }
}

impl GreedyUtilitarian {
    pub fn name(&self) -> (r: &'static str)
        ensures
            r@ == "GreedyUtilitarian"@,
    {
        "GreedyUtilitarian"
    }
}

/// A passenger headed for floor `f` counts once toward `f`.
proof fn lemma_count_headed_member(ps: Seq<Person>, i: int)
    requires
        0 <= i < ps.len(),
    ensures
        count_headed(ps, ps[i].dest as int) >= 1,
    decreases ps.len(),
{
    if i < ps.len() - 1 {
        lemma_count_headed_member(ps.drop_last(), i);
        assert(ps.drop_last()[i] == ps[i]);
    }
}

/// Among the first `upto` floors, one with people to exchange scores best.
proof fn lemma_best_so_far_exists(b: Building, e: int, upto: int, g: int)
    requires
        0 <= g < upto,
        exchange(&b, e, g) > 0,
    ensures
        exists|f: int| is_best_floor_so_far(&b, e, f, upto),
    decreases upto,
{
    let n = upto - 1;
    if exists|h: int| 0 <= h < n && exchange(&b, e, h) > 0 {
        let h = choose|h: int| 0 <= h < n && exchange(&b, e, h) > 0;
        lemma_best_so_far_exists(b, e, n, h);
        let f0 = choose|f: int| is_best_floor_so_far(&b, e, f, n);
        if exchange(&b, e, n) > 0 && score(&b, e, n) > score(&b, e, f0) {
            assert(is_best_floor_so_far(&b, e, n, upto));
        } else {
            assert(is_best_floor_so_far(&b, e, f0, upto));
        }
    } else {
        assert(g == n);
        assert(is_best_floor_so_far(&b, e, n, upto));
    }
}

/// The people to exchange at a floor include every passenger headed there.
pub proof fn lemma_exchange_counts_passengers(b: Building, e: int, f: int)
    requires
        b.wf(),
        0 <= e < b.nelevators(),
        0 <= f < b.nfloors(),
    ensures
        exchange(&b, e, f) >= count_headed(b.elevators@[e].passengers@, f),
        ({
            let el = b.elevators@[e];
            let entering = exchange(&b, e, f) - count_headed(el.passengers@, f);
            let waiting = b.floors@[f].people@[e]@.len();
            let room = el.capacity - el.passengers@.len();
            &&& entering <= waiting
            &&& entering <= room
            &&& entering == waiting || entering == room
        }),
{
    assert(b.elevator_ok(b.elevators@[e]));
}

/// An elevator that carries a passenger is always sent somewhere: the
/// passenger's floor has people to exchange, so the elevator has a best
/// floor and heads for it.
pub proof fn lemma_carrying_elevator_is_sent(b: Building, dests: Seq<Option<usize>>, e: int, i: int)
    requires
        b.wf(),
        0 <= e < b.nelevators(),
        e < dests.len(),
        0 <= i < b.elevators@[e].passengers@.len(),
    ensures
        best_floor(&b, e) is Some,
        directed(&b, dests)[e] is Some,
{
    let ps = b.elevators@[e].passengers@;
    let f = ps[i].dest as int;
    assert(b.elevator_ok(b.elevators@[e]));
    assert(b.person_fits(ps[i]));
    lemma_count_headed_member(ps, i);
    lemma_exchange_counts_passengers(b, e, f);
    lemma_best_so_far_exists(b, e, b.nfloors(), f);
    let g = choose|g: int| is_best_floor_so_far(&b, e, g, b.nfloors());
    assert(is_best_floor(&b, e, g));
}

/// A floor's score is its people to exchange per second of travel (travel
/// in ms), rounded to the nearest whole number: within half a person per
/// second of the exact rate.
pub proof fn lemma_score_rounds_rate(b: Building, e: int, f: int)
    requires
        travel(&b, e, f) > 0,
        exchange(&b, e, f) >= 0,
    ensures
        ({
            let t = travel(&b, e, f);
            let s = score(&b, e, f);
            &&& 2 * t * s <= 2000 * exchange(&b, e, f) + t
            &&& 2000 * exchange(&b, e, f) + t < 2 * t * s + 2 * t
        }),
{
    let t = travel(&b, e, f);
    let a = 2000 * exchange(&b, e, f) + t;
    lemma_fundamental_div_mod(a, 2 * t);
    lemma_mod_pos_bound(a, 2 * t);
}

} // verus!
