use vstd::prelude::*;

use crate::bounds::{update_effect, Bounds};
use crate::candidate::{child_model, child_symbol, lemma_candidate_within_limits, Candidate};
use crate::frontier::{
    add_effect, can_bring_back, enabled_from, in_unprune_scan, next_effect, prune_effect, scanned_before, unprune_effect,
    Frontier,
};
use crate::grid::{grid_empty, is_max_cell, is_min_row, lemma_min_row_unique};
use crate::math::factorial;

verus! {

/// What a step of the search came to.
#[derive(Debug, PartialEq, Eq, Structural)]
pub enum Step {
    /// The lowest waste to work on next; spill files asked for in `loads`
    /// must be installed before `advance`.
    Ready(usize),
    /// One candidate was expanded; the search goes on.
    Continue,
    /// All `n!` permutations fit with this many wasted symbols.
    Found(usize),
    /// Nothing is left to expand.
    Exhausted,
    /// A state that the search's own reasoning rules out: a count above the
    /// known ceiling, the waste jumping past the bounds table, or a counter
    /// out of range. The search cannot go on.
    Broken,
}

/// The search on `n` symbols: its frontier and its bounds table.
pub struct Search {
    pub frontier: Frontier,
    pub bounds: Bounds,
    pub n: usize,
}

/// The frontier has no room for one more candidate: its count is at the
/// top of `usize`, or a spill is due and a spill counter is full.
pub open spec fn no_room(f: &Frontier) -> bool {
    f.total_len() >= usize::MAX - 1 || (f.total_len() + 1 > f.queue_limit && !f.disk_has_room())
}

/// What `begin()` does to `a`, giving `b` and `r`: with the lowest enabled
/// waste `m`, `Broken` when `m` lies past the end of the bounds table (or a
/// counter is at the top of its range), else `Ready` with what `unprune`
/// returns for `m`; `Exhausted` when nothing is enabled.
pub open spec fn begin_effect(a: &Search, b: &Search, r: Step) -> bool {
    &&& b.n == a.n
    &&& b.bounds == a.bounds
    &&& if grid_empty(a.frontier.en()) {
        r is Exhausted && *b == *a
    } else {
        exists|m: int|
            #[trigger] is_min_row(a.frontier.en(), m) && {
                let lo = a.bounds.lower_bounds@;
                if m > lo.len() || m == usize::MAX || lo.last() == usize::MAX {
                    r is Broken && *b == *a
                } else {
                    r matches Step::Ready(w) && unprune_effect(
                        &a.frontier,
                        &b.frontier,
                        m,
                        lo,
                        a.bounds.upper_bounds@,
                        w as int,
                    )
                }
            }
    }
}

/// One run of `advance(ws)` from `a` to `b` with result `r`, through the
/// frontier `f1` after `next`, the frontier `f2` after pruning (when the
/// table changed), the children `kids` of the popped candidate, and the
/// frontiers `states` after queueing each child in turn.
pub open spec fn advance_trace(
    a: &Search,
    b: &Search,
    ws: usize,
    r: Step,
    c: Candidate,
    f1: Frontier,
    f2: Frontier,
    changed: bool,
    kids: Seq<Candidate>,
    states: Seq<Frontier>,
) -> bool {
    let n = a.n;
    let p = c.perms().len();
    &&& next_effect(&a.frontier, &f1, Some(c))
    &&& update_effect(&a.bounds, &b.bounds, ws, p as usize, changed)
    &&& if changed { prune_effect(&f1, &f2, ws as int, b.bounds.thresholds@[ws as int] as int, true) } else { f2 == f1 }
    &&& kids.len() == if c.tail_of_string@.len() == 0 { 0 } else { n - 1 }
    &&& forall|i: int| 0 <= i < kids.len() ==> (#[trigger] kids[i]).model() == child_model(
        c.perms(),
        c.tail_of_string@,
        c.wasted_symbols as int,
        child_symbol(i, c.tail_of_string@.last()),
        p == b.bounds.upper_spec(ws as int),
        n as nat,
    )
    &&& 1 <= states.len() <= kids.len() + 1
    &&& states[0] == f2
    &&& states.last() == b.frontier
    &&& forall|i: int| 0 <= i < states.len() - 1 ==> add_effect(&states[i], &states[i + 1], kids[i], n)
    &&& if states.len() < kids.len() + 1 {
        r is Broken && no_room(&states.last())
    } else {
        &&& r is Found || r is Continue
        &&& r is Found <==> b.bounds.lower_bounds@.last() == factorial(n as nat)
        &&& r matches Step::Found(w) ==> w + 1 == b.bounds.lower_bounds@.len()
    }
}

/// What `advance(ws)` does to `a`, giving `b` and `r`: pop the best
/// enabled candidate; `Broken` if its count is above the ceiling of `ws`
/// or its waste counter is full; else record its count at `ws`, prune
/// eagerly below the new threshold when the table changed, and queue its
/// children in order, `Broken` if the frontier runs out of room; `Found`
/// when the last lower bound reaches `n!`.
pub open spec fn advance_effect(a: &Search, b: &Search, ws: usize, r: Step) -> bool {
    &&& b.n == a.n
    &&& b.frontier.loads == a.frontier.loads
    &&& if grid_empty(a.frontier.en()) {
        r is Exhausted && b.bounds == a.bounds
    } else {
        exists|w0: int, p0: int|
            is_min_row(a.frontier.en(), w0) && #[trigger] is_max_cell(a.frontier.en(), w0, p0) && {
                let c = a.frontier.en()[(w0, p0)][0];
                if c.perms().len() > a.bounds.upper_spec(ws as int) || c.wasted_symbols + 2 > u16::MAX {
                    r is Broken && b.bounds == a.bounds
                } else {
                    exists|f1: Frontier, f2: Frontier, changed: bool, kids: Seq<Candidate>, states: Seq<Frontier>|
                        #[trigger] advance_trace(a, b, ws, r, c, f1, f2, changed, kids, states)
                }
            }
    }
}

/// A search as `new(n)` makes it: a fresh table, and a frontier that is an
/// empty one after queueing the seed.
pub open spec fn fresh(s: &Search, n: usize) -> bool {
    &&& s.n == n
    &&& s.bounds.lower_bounds@ == seq![0usize]
    &&& s.bounds.upper_bounds@ == seq![factorial(n as nat) as usize]
    &&& s.bounds.thresholds@ == seq![0usize]
    &&& s.bounds.max == factorial(n as nat)
    &&& s.frontier.loads@.len() == 0
    &&& exists|f0: Frontier, seed: Candidate|
        {
            &&& grid_empty(f0.en())
            &&& grid_empty(f0.dis())
            &&& forall|k: (int, int)| !f0.disabled@.contains(k)
            &&& forall|w: int, p: int| f0.disk.entry(w, p) is None
            &&& f0.spills@.len() == 0
            &&& f0.loads@.len() == 0
            &&& f0.symbols@ == n
            &&& seed.perms() == Set::<nat>::empty().insert(0)
            &&& seed.tail_of_string@ == Seq::new((n - 1) as nat, |i: int| (i + 1) as u8)
            &&& seed.wasted_symbols == 0
            &&& #[trigger] add_effect(&f0, &s.frontier, seed, n)
        }
}

/// One iteration of the loop in memory, from `a` through `mid` to `b`:
/// the spill counters have room, `begin` gives `Ready(w)` without asking
/// for a spill file, and `advance(w)` gives `r`.
pub open spec fn iteration(a: &Search, mid: &Search, b: &Search, w: usize, r: Step) -> bool {
    &&& a.frontier.disk_has_room()
    &&& begin_effect(a, mid, Step::Ready(w))
    &&& mid.frontier.loads == a.frontier.loads
    &&& advance_effect(mid, b, w, r)
}

/// From `a` the loop cannot go on in memory: a spill counter is full, or
/// `begin` gives no `Ready`, or it asks for a spill file.
pub open spec fn stuck(a: &Search) -> bool {
    ||| !a.frontier.disk_has_room()
    ||| exists|mid: Search, r: Step|
        #[trigger] begin_effect(a, &mid, r) && (!(r is Ready) || mid.frontier.loads != a.frontier.loads)
}

/// A run of `run_in_memory(n, max_steps)` that returned `r`: the states
/// after each iteration, the states between `begin` and `advance`, the
/// wastes that `begin` gave, and the results of `advance`.
pub open spec fn run_trace(
    n: usize,
    max_steps: usize,
    states: Seq<Search>,
    mids: Seq<Search>,
    wastes: Seq<usize>,
    results: Seq<Step>,
    r: Option<Vec<usize>>,
) -> bool {
    let k = results.len() as int;
    &&& states.len() == k + 1
    &&& mids.len() == k
    &&& wastes.len() == k
    &&& k <= max_steps
    &&& fresh(&states[0], n)
    &&& forall|i: int| 0 <= i < k ==> #[trigger] iteration(&states[i], &mids[i], &states[i + 1], wastes[i], results[i])
    &&& forall|i: int| 0 <= i < k - 1 ==> (#[trigger] results[i]) is Continue
    &&& match r {
        Some(lower) => k >= 1 && results[k - 1] is Found && lower@ == states[k].bounds.lower_bounds@,
        None => {
            ||| (k == 0 || results[k - 1] is Continue) && (k == max_steps || stuck(&states[k]))
            ||| k >= 1 && (results[k - 1] is Broken || results[k - 1] is Exhausted)
        },
    }
}

impl Search {
    pub open spec fn wf(&self) -> bool {
        &&& 1 <= self.n <= 20
        &&& factorial(self.n as nat) <= usize::MAX
        &&& self.frontier.wf()
        &&& self.frontier.symbols@ == self.n
        &&& self.bounds.wf()
        &&& self.bounds.max == factorial(self.n as nat)
    }

    /// The frontier holds the seed alone, and the table is fresh.
    pub fn new(n: usize, memory_limit: usize, gzip: bool, verbose: bool) -> (r: Self)
        requires
            1 <= n <= 20,
            factorial(n as nat) <= usize::MAX,
        ensures
            r.wf(),
            r.n == n,
            fresh(&r, n),
    {
        let candidate = Candidate::seed(n);
        let ghost seed = candidate;
        let mut frontier = Frontier::new(memory_limit, gzip, verbose, n);
        let ghost f0 = frontier;
        let bounds = Bounds::new(n);
        frontier.add(candidate, n);
        proof {
            assert forall|k: (int, int)| !f0.disabled@.contains(k) by {
                assert(!f0.is_disabled(k.0, k.1));
            }
            assert(add_effect(&f0, &frontier, seed, n));
        }
        let r = Search { frontier, bounds, n };
        proof {
            assert(r.frontier == frontier);
        }
        r
    }

    /// The first half of an iteration: the lowest enabled waste, after
    /// taking back a pruned bucket if the waste has moved to the end of the
    /// table.
    pub fn begin(&mut self) -> (r: Step)
        requires
            old(self).wf(),
            old(self).frontier.disk_has_room(),
        ensures
            final(self).wf(),
            final(self).frontier.disk_has_room(),
            begin_effect(old(self), final(self), r),
            r matches Step::Ready(w) ==> w < usize::MAX,
    {
        let wasted_symbols = match self.frontier.min_waste() {
            Some(w) => w,
            None => return Step::Exhausted,
        };
        let len = self.bounds.lower_bounds.len();
        if wasted_symbols > len || wasted_symbols == usize::MAX || self.bounds.lower_bounds[len - 1] == usize::MAX {
            proof {
                assert(is_min_row(self.frontier.en(), wasted_symbols as int));
            }
            return Step::Broken;
        }
        proof {
            let lo = self.bounds.lower_bounds@;
            let up = self.bounds.upper_bounds@;
            assert forall|a: int| 0 <= a < len - 1 implies up[a] <= lo[len - 1] by {
                assert(up[a] == lo[a]);
            }
        }
        let ghost start = *self;
        let w = self.frontier.unprune(
            wasted_symbols,
            self.bounds.lower_bounds.as_slice(),
            self.bounds.upper_bounds.as_slice(),
        );
        proof {
            assert(is_min_row(start.frontier.en(), wasted_symbols as int));
            if w != wasted_symbols {
                let lb = start.bounds.lower_bounds@[wasted_symbols - 1] as int;
                let p = choose|p: int|
                    {
                        &&& in_unprune_scan(lb, start.bounds.upper_bounds@, wasted_symbols - 1, w as int, p)
                        &&& can_bring_back(&start.frontier, (w as int, p))
                        &&& #[trigger] enabled_from(&start.frontier, &self.frontier, (w as int, p))
                        &&& forall|w2: int, p2: int|
                            #[trigger] in_unprune_scan(lb, start.bounds.upper_bounds@, wasted_symbols - 1, w2, p2)
                                && scanned_before(w2, p2, w as int, p) ==> !can_bring_back(&start.frontier, (w2, p2))
                    };
            }
        }
        Step::Ready(w)
    }

    /// The second half: expand the best enabled candidate at waste
    /// `wasted_symbols` (from `begin`), after raising the bounds with it and
    /// pruning what that dominates.
    pub fn advance(&mut self, wasted_symbols: usize) -> (r: Step)
        requires
            old(self).wf(),
            wasted_symbols < usize::MAX,
        ensures
            final(self).wf(),
            advance_effect(old(self), final(self), wasted_symbols, r),
    {
        let n = self.n;
        let ghost a = *self;
        let candidate = match self.frontier.next() {
            Some(c) => c,
            None => return Step::Exhausted,
        };
        let ghost c = candidate;
        let ghost f1 = self.frontier;
        let ghost (w0, p0) = choose|w: int, p: int|
            {
                &&& is_min_row(a.frontier.en(), w)
                &&& #[trigger] is_max_cell(a.frontier.en(), w, p)
                &&& Some(candidate) == Some(a.frontier.en()[(w, p)][0])
                &&& f1.en() == a.frontier.en().insert((w, p), a.frontier.en()[(w, p)].drop_first())
            };
        proof {
            lemma_candidate_within_limits(&candidate, n as nat);
        }
        let permutations = candidate.number_of_permutations();
        if permutations > self.bounds.upper(wasted_symbols) || candidate.wasted_symbols > u16::MAX - 2 {
            return Step::Broken;
        }
        let changed = self.bounds.update(wasted_symbols, permutations);
        if changed {
            let threshold = self.bounds.thresholds[wasted_symbols];
            self.frontier.prune(wasted_symbols, threshold, true);
        }
        let ghost f2 = self.frontier;
        let ghost b1 = self.bounds;
        let upper_bound = self.bounds.upper(wasted_symbols);
        let mut children = candidate.expand(upper_bound, n);
        let ghost kids = children@;
        let ghost mut states: Seq<Frontier> = seq![f2];
        let ghost mut done: int = 0;
        while children.len() > 0
            invariant
                self.wf(),
                self.n == n,
                n == a.n,
                0 <= done <= kids.len(),
                children@ == kids.subrange(done, kids.len() as int),
                states.len() == done + 1,
                states[0] == f2,
                states.last() == self.frontier,
                forall|i: int| 0 <= i < done ==> add_effect(&states[i], &states[i + 1], kids[i], n),
                forall|j: int| 0 <= j < kids.len() ==> (#[trigger] kids[j]).wf(n as nat),
                self.frontier.loads == a.frontier.loads,
                self.bounds == b1,
                a == *old(self),
                !grid_empty(a.frontier.en()),
                is_min_row(a.frontier.en(), w0),
                is_max_cell(a.frontier.en(), w0, p0),
                c == a.frontier.en()[(w0, p0)][0],
                c.perms().len() <= a.bounds.upper_spec(wasted_symbols as int),
                c.wasted_symbols + 2 <= u16::MAX,
                b1.max == factorial(n as nat),
                next_effect(&a.frontier, &f1, Some(c)),
                update_effect(&a.bounds, &b1, wasted_symbols, c.perms().len() as usize, changed),
                if changed { prune_effect(&f1, &f2, wasted_symbols as int, b1.thresholds@[wasted_symbols as int] as int, true) } else { f2 == f1 },
                kids.len() == if c.tail_of_string@.len() == 0 { 0 } else { n - 1 },
                forall|i: int| 0 <= i < kids.len() ==> (#[trigger] kids[i]).model() == child_model(
                    c.perms(),
                    c.tail_of_string@,
                    c.wasted_symbols as int,
                    child_symbol(i, c.tail_of_string@.last()),
                    c.perms().len() == b1.upper_spec(wasted_symbols as int),
                    n as nat,
                ),
            decreases children@.len(),
        {
            let count = self.frontier.len();
            if count >= usize::MAX - 1 {
                proof {
                    assert(advance_trace(&a, self, wasted_symbols, Step::Broken, c, f1, f2, changed, kids, states));
                }
                return Step::Broken;
            }
            if count + 1 > self.frontier.queue_limit && !self.frontier.disk.has_room() {
                proof {
                    assert(advance_trace(&a, self, wasted_symbols, Step::Broken, c, f1, f2, changed, kids, states));
                }
                return Step::Broken;
            }
            let child = children.remove(0);
            assert(child == kids[done]);
            let ghost before = self.frontier;
            self.frontier.add(child, n);
            proof {
                let s2 = states.push(self.frontier);
                assert forall|i: int| 0 <= i < done + 1 implies add_effect(&s2[i], &s2[i + 1], kids[i], n) by {
                    if i < done {
                        assert(s2[i] == states[i] && s2[i + 1] == states[i + 1]);
                    }
                }
                states = s2;
                done = done + 1;
                assert(children@ =~= kids.subrange(done, kids.len() as int));
            }
        }
        if self.bounds.found_for_superpermutation() {
            let waste = self.bounds.lower_bounds.len() - 1;
            proof {
                assert(states.len() == kids.len() + 1);
                assert(self.bounds.lower_bounds@.last() == factorial(n as nat));
                assert(advance_trace(&a, self, wasted_symbols, Step::Found(waste), c, f1, f2, changed, kids, states));
            }
            return Step::Found(waste);
        }
        proof {
            assert(advance_trace(&a, self, wasted_symbols, Step::Continue, c, f1, f2, changed, kids, states));
        }
        Step::Continue
    }
}

/// Runs the whole search in memory, for at most `max_steps` iterations,
/// and returns the lower bounds found: one per waste level, the last being
/// `n!`. `None` when the steps ran out, the search broke off or ran dry,
/// or it could not go on without spill files.
pub fn run_in_memory(n: usize, max_steps: usize) -> (r: Option<Vec<usize>>)
    requires
        1 <= n <= 20,
        factorial(n as nat) <= usize::MAX,
    ensures
        r matches Some(lower) ==> lower@.len() >= 1 && lower@.last() == factorial(n as nat),
        exists|states: Seq<Search>, mids: Seq<Search>, wastes: Seq<usize>, results: Seq<Step>|
            #[trigger] run_trace(n, max_steps, states, mids, wastes, results, r),
{
    let mut search = Search::new(n, usize::MAX, false, false);
    let ghost mut states: Seq<Search> = seq![search];
    let ghost mut mids: Seq<Search> = seq![];
    let ghost mut wastes: Seq<usize> = seq![];
    let ghost mut results: Seq<Step> = seq![];
    let mut steps: usize = 0;
    while steps < max_steps
        invariant
            search.wf(),
            search.n == n,
            steps <= max_steps,
            results.len() == steps,
            states.len() == steps + 1,
            mids.len() == steps,
            wastes.len() == steps,
            states.last() == search,
            fresh(&states[0], n),
            forall|i: int| 0 <= i < steps ==> #[trigger] iteration(&states[i], &mids[i], &states[i + 1], wastes[i], results[i]),
            forall|i: int| 0 <= i < steps ==> (#[trigger] results[i]) is Continue,
        decreases max_steps - steps,
    {
        if !search.frontier.disk.has_room() {
            proof {
                assert(run_trace(n, max_steps, states, mids, wastes, results, None));
            }
            return None;
        }
        let loads = search.frontier.loads.len();
        let ghost before = search;
        let wasted_symbols = match search.begin() {
            Step::Ready(w) => w,
            _ => {
                proof {
                    assert(stuck(&before));
                    assert(run_trace(n, max_steps, states, mids, wastes, results, None));
                }
                return None;
            },
        };
        if search.frontier.loads.len() != loads {
            proof {
                assert(search.frontier.loads != before.frontier.loads);
                assert(stuck(&before));
                assert(run_trace(n, max_steps, states, mids, wastes, results, None));
            }
            return None;
        }
        proof {
            assert(search.frontier.loads@ =~= before.frontier.loads@);
        }
        let ghost mid = search;
        let step = search.advance(wasted_symbols);
        proof {
            assert(iteration(&before, &mid, &search, wasted_symbols, step));
            let s2 = states.push(search);
            let m2 = mids.push(mid);
            let w2 = wastes.push(wasted_symbols);
            let r2 = results.push(step);
            assert forall|i: int| 0 <= i < steps + 1 implies #[trigger] iteration(&s2[i], &m2[i], &s2[i + 1], w2[i], r2[i]) by {
                if i < steps {
                    assert(s2[i] == states[i] && s2[i + 1] == states[i + 1] && m2[i] == mids[i]);
                }
            }
            states = s2;
            mids = m2;
            wastes = w2;
            results = r2;
        }
        match step {
            Step::Found(_) => {
                proof {
                    assert(run_trace(n, max_steps, states, mids, wastes, results, Some(search.bounds.lower_bounds)));
                }
                return Some(search.bounds.lower_bounds);
            },
            Step::Continue => {},
            _ => {
                proof {
                    assert(run_trace(n, max_steps, states, mids, wastes, results, None));
                }
                return None;
            },
        }
        steps = steps + 1;
    }
    proof {
        assert(run_trace(n, max_steps, states, mids, wastes, results, None));
    }
    None
}

} // verus!
