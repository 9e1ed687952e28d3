use vstd::prelude::*;

use crate::math::{factorial, lemma_factorial_monotone, lemma_factorial_positive};

verus! {

/// Per-waste-level bounds on the number of permutations that fit in a string.
///
/// `lower_bounds[w]` is the most permutations seen so far with `w` wasted
/// symbols, `upper_bounds[w]` a proven ceiling for that count, and
/// `thresholds[w]` the count below which a candidate at waste `w` is
/// dominated. `max` is `n!`.
#[derive(Debug)]
pub struct Bounds {
    pub lower_bounds: Vec<usize>,
    pub upper_bounds: Vec<usize>,
    pub thresholds: Vec<usize>,
    pub max: usize,
}

/// What `update(index, bound)` does to the table `a`, giving `b` and
/// `changed`: nothing when the bound does not beat the level's lower bound;
/// the level raised in place; or the table extended to `index`, with the
/// levels passed over fixed and a new ceiling for the last one.
pub open spec fn update_effect(a: &Bounds, b: &Bounds, index: usize, bound: usize, changed: bool) -> bool {
    let lo = a.lower_bounds@;
    let up = a.upper_bounds@;
    let th = a.thresholds@;
    let lo2 = b.lower_bounds@;
    let up2 = b.upper_bounds@;
    let th2 = b.thresholds@;
    let len = lo.len();
    if index < len && bound <= lo[index as int] {
        &&& !changed
        &&& lo2 == lo && up2 == up && th2 == th
    } else if index < len {
        &&& changed
        &&& lo2 == lo.update(index as int, bound)
        &&& up2 == up
        &&& th2 == th.update(index as int, (bound - lo2[0]) as usize)
    } else {
        let b = if bound >= lo[len - 1] { bound } else { lo[len - 1] };
        &&& changed
        &&& lo2.len() == index + 1
        &&& lo2.subrange(0, len as int) == lo
        &&& forall|i: int| len <= i <= index ==> lo2[i] == b
        &&& th2.len() == index + 1
        &&& forall|i: int| 0 <= i <= index ==> th2[i] == lo2[i] - lo2[0]
        &&& up2.len() == index + 1
        &&& up2.subrange(0, len - 1) == up.subrange(0, len - 1)
        &&& forall|i: int| len - 1 <= i < index ==> up2[i] == lo2[i]
        &&& up2[index as int] == if lo2[index as int] + up2[0] <= a.max {
            lo2[index as int] + up2[0]
        } else {
            a.max as int
        }
    }
}

impl Bounds {
    /// The table's invariant.
    pub open spec fn wf(&self) -> bool {
        let lo = self.lower_bounds@;
        let up = self.upper_bounds@;
        let th = self.thresholds@;
        &&& lo.len() >= 1
        &&& up.len() == lo.len()
        &&& th.len() == lo.len()
        &&& forall|i: int, j: int| 0 <= i <= j < lo.len() ==> lo[i] <= lo[j]
        &&& forall|i: int| 0 <= i < lo.len() ==> lo[i] <= up[i] && up[i] <= self.max
        &&& forall|i: int| 0 <= i < lo.len() - 1 ==> up[i] == lo[i]
        &&& forall|i: int| 0 <= i < lo.len() ==> th[i] == lo[i] - lo[0]
    }

    /// The ceiling for waste `w`: the table's entry, or `max` beyond it.
    pub open spec fn upper_spec(&self, w: int) -> int {
        if 0 <= w < self.upper_bounds@.len() {
            self.upper_bounds@[w] as int
        } else {
            self.max as int
        }
    }

    /// `n!`, for every `n` whose factorial fits in a `usize`.
    pub fn factorial(n: usize) -> (r: usize)
        requires
            factorial(n as nat) <= usize::MAX,
        ensures
            r == factorial(n as nat),
        decreases n,
    {
        if n == 0 {
            1
        } else {
            proof {
                lemma_factorial_monotone((n - 1) as nat, n as nat);
            }
            n * Self::factorial(n - 1)
        }
    }

    pub fn new(n: usize) -> (r: Self)
        requires
            factorial(n as nat) <= usize::MAX,
        ensures
            r.wf(),
            r.max == factorial(n as nat),
            r.lower_bounds@ == seq![0usize],
            r.upper_bounds@ == seq![factorial(n as nat) as usize],
            r.thresholds@ == seq![0usize],
    {
        let factorial = Self::factorial(n);
        Bounds {
            lower_bounds: vec![0],
            upper_bounds: vec![factorial],
            thresholds: vec![0],
            max: factorial,
        }
    }

    /// Records that `bound` permutations fit with `index` wasted symbols.
    ///
    /// Returns whether the table changed: a bound that does not beat the
    /// known lower bound at an existing level changes nothing. A bound
    /// beyond the table's length extends it; every level passed over is
    /// then fixed (its ceiling set to its lower bound) and the new last
    /// level gets the ceiling `min(lower + upper_bounds[0], max)`.
    pub fn update(&mut self, index: usize, bound: usize) -> (changed: bool)
        requires
            old(self).wf(),
            bound <= old(self).upper_spec(index as int),
            index < usize::MAX,
        ensures
            final(self).wf(),
            final(self).max == old(self).max,
            update_effect(old(self), final(self), index, bound, changed),
    {
        if self.lower_bounds.len() <= index {
            self.add_new_index(index, bound);
            return true;
        }
        if self.lower_bounds[index] < bound {
            self.increase_lower_bound(index, bound);
            return true;
        }
        false
    }

    /// The ceiling for `wasted_symbols`, or `max` beyond the table.
    pub fn upper(&self, wasted_symbols: usize) -> (r: usize)
        ensures
            r == self.upper_spec(wasted_symbols as int),
    {
        if wasted_symbols < self.upper_bounds.len() {
            self.upper_bounds[wasted_symbols]
        } else {
            self.max
        }
    }

    /// Whether the last lower bound has reached `max`: all permutations fit.
    pub fn found_for_superpermutation(&self) -> (r: bool)
        requires
            self.wf(),
        ensures
            r == (self.lower_bounds@.last() == self.max),
    {
        self.lower_bounds[self.lower_bounds.len() - 1] == self.max
    }

    fn add_new_index(&mut self, index: usize, bound: usize)
        requires
            old(self).wf(),
            bound <= old(self).max,
            old(self).lower_bounds@.len() <= index < usize::MAX,
        ensures
            final(self).wf(),
            final(self).max == old(self).max,
            ({
                let lo = old(self).lower_bounds@;
                let up = old(self).upper_bounds@;
                let lo2 = final(self).lower_bounds@;
                let up2 = final(self).upper_bounds@;
                let th2 = final(self).thresholds@;
                let len = lo.len();
                let b = if bound >= lo[len - 1] { bound } else { lo[len - 1] };
                &&& lo2.len() == index + 1
                &&& lo2.subrange(0, len as int) == lo
                &&& forall|i: int| len <= i <= index ==> lo2[i] == b
                &&& th2.len() == index + 1
                &&& forall|i: int| 0 <= i <= index ==> th2[i] == lo2[i] - lo2[0]
                &&& up2.len() == index + 1
                &&& up2.subrange(0, len - 1) == up.subrange(0, len - 1)
                &&& forall|i: int| len - 1 <= i < index ==> up2[i] == lo2[i]
                &&& up2[index as int] == if lo2[index as int] + up2[0] <= old(self).max {
                    lo2[index as int] + up2[0]
                } else {
                    old(self).max as int
                }
            }),
    {
        let previous_len = self.lower_bounds.len();
        let last_bound = self.lower_bounds[previous_len - 1];
        let b = if bound >= last_bound { bound } else { last_bound };
        let ghost lo = self.lower_bounds@;
        let ghost up = self.upper_bounds@;
        let ghost th = self.thresholds@;

        self.lower_bounds.resize(index + 1, 0);
        let max = self.max;
        self.upper_bounds.resize(index + 1, max);
        self.thresholds.resize(index + 1, 0);
        assert(self.lower_bounds@.subrange(0, previous_len as int) == lo);
        assert(self.upper_bounds@.subrange(0, previous_len as int) == up);
        assert(self.thresholds@.subrange(0, previous_len as int) == th);

        let mut i: usize = previous_len;
        while i <= index
            invariant
                previous_len <= i <= index + 1,
                index < usize::MAX,
                self.max == max,
                lo.len() == previous_len,
                previous_len >= 1,
                lo[previous_len - 1] == last_bound,
                lo[0] <= last_bound,
                last_bound <= b,
                self.lower_bounds@.len() == index + 1,
                self.upper_bounds@.len() == index + 1,
                self.thresholds@.len() == index + 1,
                self.lower_bounds@.subrange(0, previous_len as int) == lo,
                self.upper_bounds@.subrange(0, previous_len as int) == up,
                self.thresholds@.subrange(0, previous_len as int) == th,
                forall|k: int| previous_len <= k < i ==> self.lower_bounds@[k] == b,
                forall|k: int| previous_len <= k < i ==> self.thresholds@[k] == b - lo[0],
            decreases index + 1 - i,
        {
            assert(self.lower_bounds@[0] == lo[0]);
            self.increase_lower_bound(i, b);
            assert(self.lower_bounds@.subrange(0, previous_len as int) =~= lo);
            assert(self.upper_bounds@.subrange(0, previous_len as int) =~= up);
            assert(self.thresholds@.subrange(0, previous_len as int) =~= th);
            i = i + 1;
        }

        let ghost lo1 = self.lower_bounds@;
        let ghost th1 = self.thresholds@;
        assert forall|k: int| 0 <= k < previous_len implies self.upper_bounds@[k] == up[k] by {
            assert(self.upper_bounds@.subrange(0, previous_len as int)[k] == up[k]);
        }
        let mut j: usize = previous_len - 1;
        while j < index
            invariant
                previous_len >= 1,
                previous_len - 1 <= j <= index,
                self.max == max,
                self.lower_bounds@ == lo1,
                self.thresholds@ == th1,
                self.lower_bounds@.len() == index + 1,
                self.upper_bounds@.len() == index + 1,
                up.len() == previous_len,
                forall|k: int| 0 <= k < previous_len - 1 ==> self.upper_bounds@[k] == up[k],
                forall|k: int| previous_len - 1 <= k < j ==> self.upper_bounds@[k] == self.lower_bounds@[k],
            decreases index - j,
        {
            let ghost before = self.upper_bounds@;
            self.fix_upper_bound(j);
            assert(self.upper_bounds@ == before.update(j as int, self.lower_bounds@[j as int]));
            assert forall|k: int| previous_len - 1 <= k <= j implies self.upper_bounds@[k] == self.lower_bounds@[k] by {
                if k < j {
                    assert(self.upper_bounds@[k] == before[k]);
                }
            }
            j = j + 1;
        }

        self.decrease_upper_bound(index);
        assert(self.upper_bounds@.subrange(0, previous_len - 1) =~= up.subrange(0, previous_len - 1));
        assert(self.lower_bounds@.subrange(0, previous_len as int) =~= lo);
        proof {
            assert(self.lower_bounds@[0] == lo[0]);
            assert forall|k: int| 0 <= k <= index implies self.thresholds@[k] == self.lower_bounds@[k] - self.lower_bounds@[0] by {
                if k < previous_len {
                    assert(self.thresholds@[k] == th[k]);
                    assert(self.lower_bounds@[k] == lo[k]);
                }
            }
            assert forall|x: int, y: int| 0 <= x <= y < self.lower_bounds@.len() implies self.lower_bounds@[x] <= self.lower_bounds@[y] by {
                if y < previous_len {
                    assert(self.lower_bounds@[x] == lo[x]);
                    assert(self.lower_bounds@[y] == lo[y]);
                } else if x < previous_len {
                    assert(self.lower_bounds@[x] == lo[x]);
                    assert(lo[x] <= lo[previous_len - 1]);
                }
            }
            assert forall|k: int| 0 <= k < self.lower_bounds@.len() implies self.lower_bounds@[k] <= self.upper_bounds@[k] && self.upper_bounds@[k] <= self.max by {
                if k < previous_len - 1 {
                    assert(self.lower_bounds@[k] == lo[k]);
                    assert(self.upper_bounds@[k] == up[k]);
                }
            }
            assert forall|k: int| 0 <= k < self.lower_bounds@.len() - 1 implies self.upper_bounds@[k] == self.lower_bounds@[k] by {
                if k < previous_len - 1 {
                    assert(self.lower_bounds@[k] == lo[k]);
                    assert(self.upper_bounds@[k] == up[k]);
                }
            }
        }
    }

    fn increase_lower_bound(&mut self, index: usize, bound: usize)
        requires
            index < old(self).lower_bounds@.len(),
            index < old(self).thresholds@.len(),
            old(self).lower_bounds@.len() >= 1,
            index == 0 || old(self).lower_bounds@[0] <= bound,
        ensures
            final(self).lower_bounds@ == old(self).lower_bounds@.update(index as int, bound),
            final(self).thresholds@ == old(self).thresholds@.update(
                index as int,
                (bound - final(self).lower_bounds@[0]) as usize,
            ),
            final(self).upper_bounds == old(self).upper_bounds,
            final(self).max == old(self).max,
    {
        self.lower_bounds.set(index, bound);
        let t = bound - self.lower_bounds[0];
        self.thresholds.set(index, t);
    }

    fn fix_upper_bound(&mut self, index: usize)
        requires
            index < old(self).lower_bounds@.len(),
            index < old(self).upper_bounds@.len(),
        ensures
            final(self).upper_bounds@ == old(self).upper_bounds@.update(
                index as int,
                old(self).lower_bounds@[index as int],
            ),
            final(self).lower_bounds == old(self).lower_bounds,
            final(self).thresholds == old(self).thresholds,
            final(self).max == old(self).max,
    {
        let b = self.lower_bounds[index];
        self.upper_bounds.set(index, b);
    }

    fn decrease_upper_bound(&mut self, index: usize)
        requires
            index < old(self).lower_bounds@.len(),
            index < old(self).upper_bounds@.len(),
        ensures
            final(self).upper_bounds@ == old(self).upper_bounds@.update(
                index as int,
                (if old(self).lower_bounds@[index as int] + old(self).upper_bounds@[0] <= old(self).max {
                    old(self).lower_bounds@[index as int] + old(self).upper_bounds@[0]
                } else {
                    old(self).max as int
                }) as usize,
            ),
            final(self).lower_bounds == old(self).lower_bounds,
            final(self).thresholds == old(self).thresholds,
            final(self).max == old(self).max,
    {
        let lower = self.lower_bounds[index];
        let first = self.upper_bounds[0];
        let bound = if lower <= self.max && first <= self.max - lower {
            lower + first
        } else {
            self.max
        };
        self.upper_bounds.set(index, bound);
    }
}

} // verus!

verus! {

/// In a well-formed table every lower bound is at most its ceiling, every
/// ceiling at most `n!`, and the lower bounds never decrease as the waste
/// grows. `new` makes a well-formed table and `update` keeps it so.
pub proof fn lemma_bounds_ordered(b: &Bounds)
    requires
        b.wf(),
    ensures
        forall|w: int|
            0 <= w < b.lower_bounds@.len() ==> #[trigger] b.lower_bounds@[w] <= b.upper_bounds@[w] <= b.max,
        forall|i: int, j: int|
            0 <= i <= j < b.lower_bounds@.len() ==> b.lower_bounds@[i] <= b.lower_bounds@[j],
{
}

/// A bucket of count `p` pruned at waste `w'` with the threshold of a lower
/// waste `w` is below the threshold of `w'` too, since thresholds never
/// decrease with the waste.
pub proof fn lemma_threshold_covers_higher_waste(b: &Bounds, w: int, w2: int, p: int)
    requires
        b.wf(),
        0 <= w <= w2 < b.thresholds@.len(),
        p < b.thresholds@[w],
    ensures
        p < b.thresholds@[w2],
{
}

} // verus!
