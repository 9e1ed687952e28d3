use vstd::prelude::*;

use std::collections::VecDeque;

use crate::bounds::Bounds;
use crate::candidate::{lemma_candidate_within_limits, Candidate};
use crate::disk::{basename_text, entry_after_read, entry_after_write, Disk};
use crate::decimal::decimal_text;
use crate::grid::{grid_cells, grid_empty, grid_len, is_max_cell, is_max_row, is_min_row, row_occupied, BucketGrid};
use crate::math::factorial;
use crate::pair_set::PairSet;

verus! {

/// A bucket handed out to be written to the spill file `filename`.
pub struct SpillJob {
    pub wasted_symbols: usize,
    pub permutations: usize,
    pub filename: String,
    pub bucket: VecDeque<Candidate>,
}

/// A spill file to be read back into the enabled cell `(w, p)`.
pub struct LoadJob {
    pub wasted_symbols: usize,
    pub permutations: usize,
    pub filename: String,
}

/// The open set of the search: candidates bucketed by total waste `w` and
/// permutation count `p`, in an enabled grid that the search draws from
/// and a disabled grid for pruned buckets. Disabled buckets may be spilled
/// to files: the frontier names the files and hands the buckets out in
/// `spills`, and asks for files back through `loads`.
pub struct Frontier {
    pub enabled_queue: BucketGrid,
    pub disabled_queue: BucketGrid,
    pub disabled: PairSet,
    pub disk: Disk,
    pub queue_limit: usize,
    pub verbose: bool,
    pub spills: Vec<SpillJob>,
    pub loads: Vec<LoadJob>,
    /// The alphabet's size.
    pub symbols: Ghost<nat>,
}

/// The cell of a candidate on `n` symbols: `(total waste, permutations seen)`.
pub open spec fn cell_of(c: Candidate, n: nat) -> (int, int) {
    (c.wasted_symbols + n - c.tail_of_string@.len() - 1, c.perms().len() as int)
}

/// Every cell of the grid `m` has an entry, and every candidate in it is
/// well formed and sits in its own cell.
pub open spec fn cells_hold_their_own(m: Map<(int, int), Seq<Candidate>>, n: nat) -> bool {
    &&& forall|k: (int, int)| m.dom().contains(k)
    &&& forall|w: int, p: int, i: int|
        0 <= i < m[(w, p)].len() ==> (#[trigger] m[(w, p)][i]).wf(n) && cell_of(m[(w, p)][i], n) == (w, p)
}

/// `ceil(n! / 8) + 8 (n - 1) + 8`: the bytes that one candidate takes.
pub open spec fn bytes_per_candidate(n: nat) -> nat {
    (factorial(n) + 7) / 8 + 8 * (n - 1) as nat + 8
}

/// Taking the front of a cell keeps every candidate in its own cell.
proof fn lemma_drop_first_keeps(m: Map<(int, int), Seq<Candidate>>, k: (int, int), n: nat)
    requires
        cells_hold_their_own(m, n),
        m[k].len() > 0,
    ensures
        cells_hold_their_own(m.insert(k, m[k].drop_first()), n),
{
    let m2 = m.insert(k, m[k].drop_first());
    assert forall|w: int, p: int, i: int| 0 <= i < m2[(w, p)].len() implies (#[trigger] m2[(w, p)][i]).wf(n)
        && cell_of(m2[(w, p)][i], n) == (w, p) by {
        if (w, p) == k {
            assert(m2[(w, p)][i] == m[(w, p)][i + 1]);
        } else {
            assert(m.dom().contains((w, p)));
            assert(m2[(w, p)] == m[(w, p)]);
        }
    }
    assert forall|k2: (int, int)| m2.dom().contains(k2) by {
        assert(m.dom().contains(k2));
    }
}

/// `k` lies in the block pruned from row `w` up to row `max`, below `t`
/// permutations.
pub open spec fn in_prune_range(k: (int, int), w: int, max: int, t: int) -> bool {
    w <= k.0 <= max && 0 <= k.1 < t
}

/// `b` is `a` after the buckets of the block `(w..=max, 0..t)` that were
/// not pruned yet have been marked pruned and moved to the disabled grid.
pub open spec fn pruned_from(a: &Frontier, b: &Frontier, w: int, max: int, t: int) -> bool {
    &&& forall|k: (int, int)| #[trigger] b.disabled@.contains(k) == (a.disabled@.contains(k) || in_prune_range(k, w, max, t))
    &&& forall|k: (int, int)| #[trigger] b.en()[k] == if in_prune_range(k, w, max, t) && !a.disabled@.contains(k) {
        Seq::<Candidate>::empty()
    } else {
        a.en()[k]
    }
    &&& forall|k: (int, int)| #[trigger] b.dis()[k] == if in_prune_range(k, w, max, t) && !a.disabled@.contains(k)
        && a.en()[k].len() > 0 {
        a.en()[k]
    } else {
        a.dis()[k]
    }
}

/// What `prune(w, t, eager)` does to `a`, giving `b`: prune the block from
/// row `w` up to the highest enabled row when eager, or row `w` alone.
pub open spec fn prune_effect(a: &Frontier, b: &Frontier, w: int, t: int, eager: bool) -> bool {
    &&& b.symbols == a.symbols
    &&& b.disk == a.disk
    &&& b.spills == a.spills
    &&& b.loads == a.loads
    &&& b.queue_limit == a.queue_limit
    &&& if !eager {
        pruned_from(a, b, w, w, t)
    } else if grid_empty(a.en()) {
        b.en() == a.en() && b.dis() == a.dis() && b.disabled@ == a.disabled@
    } else {
        exists|max: int| is_max_row(a.en(), max) && #[trigger] pruned_from(a, b, w, max, t)
    }
}

/// The block pruned so far while pruning row `w` cell by cell: rows
/// `lo..w` below `t`, and row `w` below `p`.
pub open spec fn pruned_row_from(a: &Frontier, b: &Frontier, lo: int, w: int, p: int, t: int) -> bool {
    &&& forall|k: (int, int)| #[trigger] b.disabled@.contains(k) == (a.disabled@.contains(k) || in_block(k, lo, w, p, t))
    &&& forall|k: (int, int)| #[trigger] b.en()[k] == if in_block(k, lo, w, p, t) && !a.disabled@.contains(k) {
        Seq::<Candidate>::empty()
    } else {
        a.en()[k]
    }
    &&& forall|k: (int, int)| #[trigger] b.dis()[k] == if in_block(k, lo, w, p, t) && !a.disabled@.contains(k)
        && a.en()[k].len() > 0 {
        a.en()[k]
    } else {
        a.dis()[k]
    }
}

pub open spec fn in_block(k: (int, int), lo: int, w: int, p: int, t: int) -> bool {
    in_prune_range(k, lo, w - 1, t) || (k.0 == w && 0 <= k.1 < p)
}

proof fn lemma_prune_step(a: &Frontier, b: &Frontier, c: &Frontier, lo: int, w: int, p: int, t: int)
    requires
        pruned_row_from(a, b, lo, w, p, t),
        0 <= p < t,
        lo <= w,
        c.disabled@ == b.disabled@.insert((w, p)),
        b.disabled@.contains((w, p)) ==> c.en() == b.en() && c.dis() == b.dis(),
        !b.disabled@.contains((w, p)) ==> {
            &&& c.en() == if b.en()[(w, p)].len() > 0 { b.en().insert((w, p), Seq::empty()) } else { b.en() }
            &&& c.dis() == if b.en()[(w, p)].len() > 0 { b.dis().insert((w, p), b.en()[(w, p)]) } else { b.dis() }
        },
        forall|k: (int, int)| b.en().dom().contains(k),
        forall|k: (int, int)| b.dis().dom().contains(k),
    ensures
        pruned_row_from(a, c, lo, w, p + 1, t),
{
    let key = (w, p);
    assert forall|k: (int, int)| #[trigger] c.en()[k] == if in_block(k, lo, w, p + 1, t) && !a.disabled@.contains(k) {
        Seq::<Candidate>::empty()
    } else {
        a.en()[k]
    } by {
        if k != key {
            assert(b.en().dom().contains(k));
            assert(c.en()[k] == b.en()[k]);
        } else {
            assert(!in_block(k, lo, w, p, t));
            assert(b.en()[k] == a.en()[k]);
        }
    }
    assert forall|k: (int, int)| #[trigger] c.dis()[k] == if in_block(k, lo, w, p + 1, t) && !a.disabled@.contains(k)
        && a.en()[k].len() > 0 {
        a.en()[k]
    } else {
        a.dis()[k]
    } by {
        if k != key {
            assert(b.dis().dom().contains(k));
            assert(c.dis()[k] == b.dis()[k]);
        } else {
            assert(!in_block(k, lo, w, p, t));
            assert(b.en()[k] == a.en()[k]);
            assert(b.dis()[k] == a.dis()[k]);
        }
    }
    assert forall|k: (int, int)| #[trigger] c.disabled@.contains(k) == (a.disabled@.contains(k) || in_block(k, lo, w, p + 1, t)) by {
        assert(b.disabled@.contains(k) == (a.disabled@.contains(k) || in_block(k, lo, w, p, t)));
    }
}

proof fn lemma_prune_row_done(a: &Frontier, b: &Frontier, lo: int, w: int, t: int)
    requires
        pruned_row_from(a, b, lo, w, t, t),
        lo <= w,
    ensures
        pruned_from(a, b, lo, w, t),
{
    assert forall|k: (int, int)| in_block(k, lo, w, t, t) == in_prune_range(k, lo, w, t) by {}
}

proof fn lemma_push_keeps(m: Map<(int, int), Seq<Candidate>>, k: (int, int), c: Candidate, n: nat)
    requires
        cells_hold_their_own(m, n),
        c.wf(n),
        cell_of(c, n) == k,
    ensures
        cells_hold_their_own(m.insert(k, m[k].push(c)), n),
{
    let m2 = m.insert(k, m[k].push(c));
    assert forall|w: int, p: int, i: int| 0 <= i < m2[(w, p)].len() implies (#[trigger] m2[(w, p)][i]).wf(n)
        && cell_of(m2[(w, p)][i], n) == (w, p) by {
        assert(m.dom().contains((w, p)));
        if (w, p) == k {
            if i < m[k].len() {
                assert(m2[(w, p)][i] == m[k][i]);
            }
        } else {
            assert(m2[(w, p)] == m[(w, p)]);
        }
    }
    assert forall|k2: (int, int)| m2.dom().contains(k2) by {
        assert(m.dom().contains(k2));
    }
}

proof fn lemma_take_keeps(m: Map<(int, int), Seq<Candidate>>, k: (int, int), n: nat)
    requires
        cells_hold_their_own(m, n),
    ensures
        cells_hold_their_own(m.insert(k, Seq::empty()), n),
{
    lemma_move_cell_keeps(m, m, k, n);
}

proof fn lemma_spill_step(
    dis_a: Map<(int, int), Seq<Candidate>>,
    disk_a: Disk,
    jobs_a: Seq<SpillJob>,
    dis_b: Map<(int, int), Seq<Candidate>>,
    disk_b: Disk,
    jobs_b: Seq<SpillJob>,
    dis_c: Map<(int, int), Seq<Candidate>>,
    disk_c: Disk,
    jobs_c: Seq<SpillJob>,
    k: (int, int),
)
    requires
        spilled_upto(dis_a, disk_a, jobs_a, dis_b, disk_b, jobs_b, k),
        forall|k2: (int, int)| dis_b.dom().contains(k2),
        dis_b[k].len() > 0,
        dis_c == dis_b.insert(k, Seq::empty()),
        disk_c.path == disk_b.path,
        disk_c.gzip == disk_b.gzip,
        disk_c.entry(k.0, k.1) == entry_after_write(disk_b.entry(k.0, k.1)),
        forall|w: int, p: int| (w, p) != k ==> disk_c.entry(w, p) == disk_b.entry(w, p),
        jobs_c.len() == jobs_b.len() + 1,
        jobs_c.subrange(0, jobs_b.len() as int) == jobs_b,
        job_key(jobs_c.last()) == k,
        jobs_c.last().bucket@ == dis_b[k],
        jobs_c.last().filename@ == newest_file(disk_c, k),
    ensures
        spilled_upto(dis_a, disk_a, jobs_a, dis_c, disk_c, jobs_c, (k.0, k.1 + 1)),
{
    let next = (k.0, k.1 + 1);
    assert(dis_b[k] == dis_a[k]);
    assert forall|k2: (int, int)| #[trigger] dis_c[k2] == if lex_lt(k2, next) { Seq::<Candidate>::empty() } else { dis_a[k2] } by {
        if k2 != k {
            assert(dis_c[k2] == dis_b[k2]);
        }
    }
    assert forall|w: int, p: int| #[trigger] disk_c.entry(w, p) == if lex_lt((w, p), next) && dis_a[(w, p)].len() > 0 {
        entry_after_write(disk_a.entry(w, p))
    } else {
        disk_a.entry(w, p)
    } by {
        if (w, p) != k {
            assert(disk_c.entry(w, p) == disk_b.entry(w, p));
        } else {
            assert(disk_b.entry(w, p) == disk_a.entry(w, p));
        }
    }
    assert(jobs_c.subrange(0, jobs_a.len() as int) =~= jobs_a) by {
        assert(jobs_b.subrange(0, jobs_a.len() as int) == jobs_a);
        assert forall|i: int| 0 <= i < jobs_a.len() implies jobs_c[i] == jobs_a[i] by {
            assert(jobs_c[i] == jobs_c.subrange(0, jobs_b.len() as int)[i]);
            assert(jobs_b[i] == jobs_b.subrange(0, jobs_a.len() as int)[i]);
        }
    }
    assert forall|j: int| jobs_a.len() <= j < jobs_c.len() implies {
        let k2 = job_key(#[trigger] jobs_c[j]);
        &&& lex_lt(k2, next)
        &&& dis_a[k2].len() > 0
        &&& jobs_c[j].bucket@ == dis_a[k2]
        &&& jobs_c[j].filename@ == newest_file(disk_c, k2)
    } by {
        if j < jobs_b.len() {
            assert(jobs_c[j] == jobs_c.subrange(0, jobs_b.len() as int)[j]);
            let k2 = job_key(jobs_b[j]);
            assert(lex_lt(k2, k));
            assert(disk_c.entry(k2.0, k2.1) == disk_b.entry(k2.0, k2.1));
        }
    }
    assert forall|k2: (int, int)| lex_lt(k2, next) && #[trigger] dis_a[k2].len() > 0 implies exists|j: int|
        jobs_a.len() <= j < jobs_c.len() && job_key(#[trigger] jobs_c[j]) == k2 by {
        if k2 == k {
            assert(job_key(jobs_c[jobs_c.len() - 1]) == k2);
        } else {
            let j = choose|j: int| jobs_a.len() <= j < jobs_b.len() && job_key(#[trigger] jobs_b[j]) == k2;
            assert(jobs_c[j] == jobs_c.subrange(0, jobs_b.len() as int)[j]);
        }
    }
    assert forall|i: int, j: int| jobs_a.len() <= i < j < jobs_c.len() implies lex_lt(job_key(#[trigger] jobs_c[i]), job_key(#[trigger] jobs_c[j])) by {
        assert(jobs_c[i] == jobs_c.subrange(0, jobs_b.len() as int)[i]);
        if j < jobs_b.len() {
            assert(jobs_c[j] == jobs_c.subrange(0, jobs_b.len() as int)[j]);
        } else {
            assert(lex_lt(job_key(jobs_b[i]), k));
        }
    }
}

proof fn lemma_skip_step(
    dis_a: Map<(int, int), Seq<Candidate>>,
    disk_a: Disk,
    jobs_a: Seq<SpillJob>,
    dis_b: Map<(int, int), Seq<Candidate>>,
    disk_b: Disk,
    jobs_b: Seq<SpillJob>,
    k: (int, int),
)
    requires
        spilled_upto(dis_a, disk_a, jobs_a, dis_b, disk_b, jobs_b, k),
        dis_b[k].len() == 0,
    ensures
        spilled_upto(dis_a, disk_a, jobs_a, dis_b, disk_b, jobs_b, (k.0, k.1 + 1)),
{
    let next = (k.0, k.1 + 1);
    assert(dis_a[k].len() == 0);
    assert forall|k2: (int, int)| #[trigger] dis_b[k2] == if lex_lt(k2, next) { Seq::<Candidate>::empty() } else { dis_a[k2] } by {
        if k2 == k {
            assert(dis_b[k2] =~= Seq::<Candidate>::empty());
        }
    }
}

proof fn lemma_row_done(a: &Frontier, dis_b: Map<(int, int), Seq<Candidate>>, disk_b: Disk, jobs_b: Seq<SpillJob>, w: int, row_len: int)
    requires
        a.wf(),
        spilled_upto(a.dis(), a.disk, a.spills@, dis_b, disk_b, jobs_b, (w, row_len)),
        row_len == a.disabled.spec_row_len(w),
    ensures
        spilled_upto(a.dis(), a.disk, a.spills@, dis_b, disk_b, jobs_b, (w + 1, 0)),
{
    let next = (w + 1, 0);
    assert forall|k2: (int, int)| k2.0 == w && k2.1 >= row_len implies #[trigger] a.dis()[k2].len() == 0 by {
        if a.dis()[k2].len() > 0 {
            assert(a.is_disabled(k2.0, k2.1));
        }
    }
    assert forall|k2: (int, int)| #[trigger] dis_b[k2] == if lex_lt(k2, next) { Seq::<Candidate>::empty() } else { a.dis()[k2] } by {
        if k2.0 == w && k2.1 >= row_len {
            assert(a.dis()[k2].len() == 0);
            assert(dis_b[k2] =~= Seq::<Candidate>::empty());
        }
    }
    assert forall|w2: int, p2: int| #[trigger] disk_b.entry(w2, p2) == if lex_lt((w2, p2), next) && a.dis()[(w2, p2)].len() > 0 {
        entry_after_write(a.disk.entry(w2, p2))
    } else {
        a.disk.entry(w2, p2)
    } by {
        if w2 == w && p2 >= row_len {
            assert(a.dis()[(w2, p2)].len() == 0);
        }
    }
    assert forall|k2: (int, int)| lex_lt(k2, next) && #[trigger] a.dis()[k2].len() > 0 implies exists|j: int|
        a.spills@.len() <= j < jobs_b.len() && job_key(#[trigger] jobs_b[j]) == k2 by {
        if k2.0 == w && k2.1 >= row_len {
            assert(a.dis()[k2].len() == 0);
        }
    }
}

/// Moving a cell from one grid to the other keeps every candidate in its
/// own cell.
proof fn lemma_move_cell_keeps(
    from: Map<(int, int), Seq<Candidate>>,
    to: Map<(int, int), Seq<Candidate>>,
    k: (int, int),
    n: nat,
)
    requires
        cells_hold_their_own(from, n),
        cells_hold_their_own(to, n),
    ensures
        cells_hold_their_own(from.insert(k, Seq::empty()), n),
        cells_hold_their_own(to.insert(k, from[k]), n),
{
    let f2 = from.insert(k, Seq::empty());
    let t2 = to.insert(k, from[k]);
    assert forall|w: int, p: int, i: int| 0 <= i < f2[(w, p)].len() implies (#[trigger] f2[(w, p)][i]).wf(n)
        && cell_of(f2[(w, p)][i], n) == (w, p) by {
        assert(from.dom().contains((w, p)));
        if (w, p) != k {
            assert(f2[(w, p)] == from[(w, p)]);
        }
    }
    assert forall|w: int, p: int, i: int| 0 <= i < t2[(w, p)].len() implies (#[trigger] t2[(w, p)][i]).wf(n)
        && cell_of(t2[(w, p)][i], n) == (w, p) by {
        assert(to.dom().contains((w, p)));
        if (w, p) != k {
            assert(t2[(w, p)] == to[(w, p)]);
        }
    }
    assert forall|k2: (int, int)| f2.dom().contains(k2) && t2.dom().contains(k2) by {
        assert(from.dom().contains(k2));
        assert(to.dom().contains(k2));
    }
}

/// `a` comes before `b`, row first.
pub open spec fn lex_lt(a: (int, int), b: (int, int)) -> bool {
    a.0 < b.0 || (a.0 == b.0 && a.1 < b.1)
}

pub open spec fn job_key(j: SpillJob) -> (int, int) {
    (j.wasted_symbols as int, j.permutations as int)
}

/// The name of the newest spill file of bucket `k`.
pub open spec fn newest_file(d: Disk, k: (int, int)) -> Seq<char> {
    basename_text(d.path@, d.gzip, k.0 as nat, k.1 as nat) + "."@ + decimal_text(d.entry(k.0, k.1)->Some_0.1 as nat)
}

/// From the disabled grid `dis_a`, the spill counters `disk_a` and the jobs
/// `jobs_a`, every occupied cell before `upto` has been handed out, in
/// order, as a job naming a new file: giving `dis_b`, `disk_b` and `jobs_b`.
pub open spec fn spilled_upto(
    dis_a: Map<(int, int), Seq<Candidate>>,
    disk_a: Disk,
    jobs_a: Seq<SpillJob>,
    dis_b: Map<(int, int), Seq<Candidate>>,
    disk_b: Disk,
    jobs_b: Seq<SpillJob>,
    upto: (int, int),
) -> bool {
    &&& forall|k: (int, int)| #[trigger] dis_b[k] == if lex_lt(k, upto) { Seq::<Candidate>::empty() } else { dis_a[k] }
    &&& forall|w: int, p: int| #[trigger] disk_b.entry(w, p) == if lex_lt((w, p), upto) && dis_a[(w, p)].len() > 0 {
        entry_after_write(disk_a.entry(w, p))
    } else {
        disk_a.entry(w, p)
    }
    &&& disk_b.path == disk_a.path
    &&& disk_b.gzip == disk_a.gzip
    &&& jobs_b.len() >= jobs_a.len()
    &&& jobs_b.subrange(0, jobs_a.len() as int) == jobs_a
    &&& forall|j: int| jobs_a.len() <= j < jobs_b.len() ==> {
        let k = job_key(#[trigger] jobs_b[j]);
        &&& lex_lt(k, upto)
        &&& dis_a[k].len() > 0
        &&& jobs_b[j].bucket@ == dis_a[k]
        &&& jobs_b[j].filename@ == newest_file(disk_b, k)
    }
    &&& forall|k: (int, int)| lex_lt(k, upto) && #[trigger] dis_a[k].len() > 0 ==> exists|j: int|
        jobs_a.len() <= j < jobs_b.len() && job_key(#[trigger] jobs_b[j]) == k
    &&& forall|i: int, j: int| jobs_a.len() <= i < j < jobs_b.len() ==> lex_lt(job_key(#[trigger] jobs_b[i]), job_key(#[trigger] jobs_b[j]))
}

/// What `add(c, n)` does to `a`, giving `b`: `c` joins the back of its own
/// cell, in the disabled grid when that bucket is pruned; then, when memory
/// is over the limit, every occupied disabled cell is handed out to spill.
pub open spec fn add_effect(a: &Frontier, b: &Frontier, candidate: Candidate, n: usize) -> bool {
    &&& b.disabled == a.disabled
    &&& b.loads == a.loads
    &&& b.symbols == a.symbols
    &&& b.queue_limit == a.queue_limit
    &&& b.en() == if a.disabled@.contains(cell_of(candidate, n as nat)) {
        a.en()
    } else {
        with_added(a.en(), candidate, n as nat)
    }
    &&& a.total_len() + 1 <= a.queue_limit ==> {
        &&& b.dis() == a.dis_after_adding(candidate, n as nat)
        &&& b.disk == a.disk
        &&& b.spills == a.spills
        &&& b.total_len() == a.total_len() + 1
    }
    &&& a.total_len() + 1 > a.queue_limit ==> spilled_all(
        a.dis_after_adding(candidate, n as nat),
        a.disk,
        a.spills@,
        b.dis(),
        b.disk,
        b.spills@,
    )
}

/// What `next()` does to `a`, giving `b` and `r`: the front candidate of
/// the highest occupied cell of the lowest occupied row leaves the enabled
/// grid and is returned; nothing changes when that grid is empty.
pub open spec fn next_effect(a: &Frontier, b: &Frontier, r: Option<Candidate>) -> bool {
    &&& b.symbols == a.symbols
    &&& b.dis() == a.dis()
    &&& b.disabled == a.disabled
    &&& b.disk == a.disk
    &&& b.spills == a.spills
    &&& b.loads == a.loads
    &&& b.queue_limit == a.queue_limit
    &&& if grid_empty(a.en()) {
        &&& r is None
        &&& b.en() == a.en()
        &&& b.total_len() == a.total_len()
    } else {
        &&& b.total_len() + 1 == a.total_len()
        &&& exists|w: int, p: int|
            {
                &&& is_min_row(a.en(), w)
                &&& #[trigger] is_max_cell(a.en(), w, p)
                &&& r == Some(a.en()[(w, p)][0])
                &&& b.en() == a.en().insert((w, p), a.en()[(w, p)].drop_first())
            }
    }
}

/// Every occupied cell of `dis_a` has been handed out as a spill job,
/// in order, leaving the disabled grid empty.
pub open spec fn spilled_all(
    dis_a: Map<(int, int), Seq<Candidate>>,
    disk_a: Disk,
    jobs_a: Seq<SpillJob>,
    dis_b: Map<(int, int), Seq<Candidate>>,
    disk_b: Disk,
    jobs_b: Seq<SpillJob>,
) -> bool {
    &&& forall|k: (int, int)| #[trigger] dis_b[k].len() == 0
    &&& exists|upto: (int, int)|
        #[trigger] spilled_upto(dis_a, disk_a, jobs_a, dis_b, disk_b, jobs_b, upto)
        && forall|k: (int, int)| #[trigger] dis_a[k].len() > 0 ==> lex_lt(k, upto)
}

/// The grid `m` with `c` queued at the back of its own cell.
pub open spec fn with_added(m: Map<(int, int), Seq<Candidate>>, c: Candidate, n: nat) -> Map<(int, int), Seq<Candidate>> {
    m.insert(cell_of(c, n), m[cell_of(c, n)].push(c))
}

/// Bucket `k` of `a` can be taken back: it is pruned, and a spill file of
/// it waits or its disabled cell holds candidates.
pub open spec fn can_bring_back(a: &Frontier, k: (int, int)) -> bool {
    a.disabled@.contains(k) && (a.file_waiting(k.0, k.1) || a.dis()[k].len() > 0)
}

/// `b` is `a` after bucket `k` was taken back: with a spill file waiting,
/// the oldest one is asked for in `loads` and the bucket stays pruned until
/// its files are all read; otherwise the bucket stops being pruned and its
/// disabled candidates become its enabled ones.
pub open spec fn enabled_from(a: &Frontier, b: &Frontier, k: (int, int)) -> bool {
    &&& b.symbols == a.symbols
    &&& b.spills == a.spills
    &&& b.queue_limit == a.queue_limit
    &&& if a.file_waiting(k.0, k.1) {
        &&& b.enabled_queue == a.enabled_queue
        &&& b.disabled_queue == a.disabled_queue
        &&& b.disabled == a.disabled
        &&& b.disk.path == a.disk.path
        &&& b.disk.gzip == a.disk.gzip
        &&& b.loads@.len() == a.loads@.len() + 1
        &&& b.loads@.subrange(0, a.loads@.len() as int) == a.loads@
        &&& b.loads@.last().wasted_symbols == k.0
        &&& b.loads@.last().permutations == k.1
        &&& b.loads@.last().filename@ == basename_text(a.disk.path@, a.disk.gzip, k.0 as nat, k.1 as nat)
            + "."@ + decimal_text(a.disk.entry(k.0, k.1)->Some_0.0 as nat)
        &&& b.disk.entry(k.0, k.1) == entry_after_read(a.disk.entry(k.0, k.1))
        &&& forall|w: int, p: int| (w, p) != k ==> b.disk.entry(w, p) == a.disk.entry(w, p)
    } else {
        &&& b.disabled@ == a.disabled@.remove(k)
        &&& b.en() == a.en().insert(k, a.dis()[k])
        &&& b.dis() == a.dis().insert(k, Seq::empty())
        &&& b.total_len() + a.en()[k].len() == a.total_len()
        &&& b.disk == a.disk
        &&& b.loads == a.loads
    }
}

/// `(w, p)` lies in the block that `unprune` scans after the waste level
/// `prev`, whose lower bound is `lb`: rows `1..=prev`, and in row `w` the
/// counts from `lb + 1 - ub[prev - w]` up to `ub[w]`, exclusive.
pub open spec fn in_unprune_scan(lb: int, ub: Seq<usize>, prev: int, w: int, p: int) -> bool {
    1 <= w <= prev && lb + 1 - ub[prev - w] <= p < ub[w]
}

/// The scan meets `(w2, p2)` before `(w, p)`: rows downward, and counts
/// downward within a row.
pub open spec fn scanned_before(w2: int, p2: int, w: int, p: int) -> bool {
    w2 > w || (w2 == w && p2 > p)
}

/// What `unprune(ws, lo, up)` does to `a`, giving `b` and `r`. Below the
/// table's end nothing happens. At the end, the first bucket of the scan
/// that can be taken back is taken back and its row returned; when none
/// can, nothing changes and `ws` is returned.
pub open spec fn unprune_effect(a: &Frontier, b: &Frontier, ws: int, lo: Seq<usize>, up: Seq<usize>, r: int) -> bool {
    if ws < lo.len() {
        r == ws && *b == *a
    } else {
        let prev = ws - 1;
        let lb = lo[prev] as int;
        if r == ws {
            &&& *b == *a
            &&& forall|w: int, p: int| #[trigger] in_unprune_scan(lb, up, prev, w, p) ==> !can_bring_back(a, (w, p))
        } else {
            exists|p: int|
                {
                    &&& in_unprune_scan(lb, up, prev, r, p)
                    &&& can_bring_back(a, (r, p))
                    &&& #[trigger] enabled_from(a, b, (r, p))
                    &&& forall|w2: int, p2: int|
                        #[trigger] in_unprune_scan(lb, up, prev, w2, p2) && scanned_before(w2, p2, r, p)
                            ==> !can_bring_back(a, (w2, p2))
                }
        }
    }
}

impl Frontier {
    /// The disabled grid once `c` is queued, before any spill.
    pub open spec fn dis_after_adding(&self, c: Candidate, n: nat) -> Map<(int, int), Seq<Candidate>> {
        if self.disabled@.contains(cell_of(c, n)) {
            with_added(self.dis(), c, n)
        } else {
            self.dis()
        }
    }

    pub open spec fn en(&self) -> Map<(int, int), Seq<Candidate>> {
        grid_cells(self.enabled_queue)
    }

    pub open spec fn dis(&self) -> Map<(int, int), Seq<Candidate>> {
        grid_cells(self.disabled_queue)
    }

    /// `(w, p)` is marked pruned.
    pub open spec fn is_disabled(&self, w: int, p: int) -> bool {
        self.disabled@.contains((w, p))
    }

    /// The candidates held in memory.
    pub open spec fn total_len(&self) -> nat {
        grid_len(self.enabled_queue) + grid_len(self.disabled_queue)
    }

    /// The frontier's invariant.
    pub open spec fn wf(&self) -> bool {
        &&& cells_hold_their_own(self.en(), self.symbols@)
        &&& cells_hold_their_own(self.dis(), self.symbols@)
        &&& forall|w: int, p: int| #[trigger] self.dis()[(w, p)].len() > 0 ==> self.is_disabled(w, p)
        &&& self.total_len() <= usize::MAX
        &&& forall|w: int, p: int| #[trigger] self.disk.entry(w, p) matches Some((lo, hi)) ==> lo <= hi + 1
    }

    /// Every spill file counter has room for one more file.
    pub open spec fn disk_has_room(&self) -> bool {
        forall|w: int, p: int| #[trigger] self.disk.entry(w, p) matches Some((lo, hi)) ==> hi + 1 < usize::MAX
    }

    /// A spill file of bucket `(w, p)` waits to be read.
    pub open spec fn file_waiting(&self, w: int, p: int) -> bool {
        self.disk.entry(w, p) matches Some((lo, hi)) && lo <= hi
    }

    /// An empty frontier whose spill threshold is the number of candidates
    /// that fit in `memory_limit` bytes, spilling under `scratch-files`.
    pub fn new(memory_limit: usize, gzip: bool, verbose: bool, n: usize) -> (r: Self)
        requires
            1 <= n <= 20,
            factorial(n as nat) <= usize::MAX,
        ensures
            r.wf(),
            r.symbols@ == n,
            grid_empty(r.en()),
            grid_empty(r.dis()),
            r.total_len() == 0,
            forall|w: int, p: int| !r.is_disabled(w, p),
            forall|w: int, p: int| r.disk.entry(w, p) is None,
            r.disk.gzip == gzip,
            r.verbose == verbose,
            r.queue_limit == memory_limit as nat / bytes_per_candidate(n as nat),
            r.spills@.len() == 0,
            r.loads@.len() == 0,
    {
        proof {
            reveal_strlit("scratch-files");
        }
        let r = Frontier {
            enabled_queue: BucketGrid::new(),
            disabled_queue: BucketGrid::new(),
            disabled: PairSet::new(),
            disk: Disk::new(String::from_str("scratch-files"), gzip),
            queue_limit: Self::queue_limit(memory_limit, n),
            verbose,
            spills: Vec::new(),
            loads: Vec::new(),
            symbols: Ghost(n as nat),
        };
        r
    }

    /// Candidates in memory, enabled and disabled.
    pub fn len(&self) -> (r: usize)
        requires
            self.total_len() <= usize::MAX,
        ensures
            r == self.total_len(),
    {
        self.enabled_queue.len() + self.disabled_queue.len()
    }

    /// The lowest total waste in the enabled grid.
    pub fn min_waste(&self) -> (r: Option<usize>)
        ensures
            r is None <==> grid_empty(self.en()),
            r matches Some(w) ==> is_min_row(self.en(), w as int),
    {
        self.enabled_queue.min_priority()
    }

    /// The highest total waste in the enabled grid.
    pub fn max_waste(&self) -> (r: Option<usize>)
        ensures
            r is None <==> grid_empty(self.en()),
            r matches Some(w) ==> is_max_row(self.en(), w as int),
    {
        self.enabled_queue.max_priority()
    }

    /// The best enabled candidate: lowest total waste, then most
    /// permutations, then first in.
    pub fn next(&mut self) -> (r: Option<Candidate>)
        requires
            old(self).wf(),
        ensures
            final(self).wf(),
            final(self).symbols == old(self).symbols,
            r matches Some(c) ==> c.wf(old(self).symbols@),
            next_effect(old(self), final(self), r),
    {
        let waste = match self.min_waste() {
            Some(w) => w,
            None => return None,
        };
        proof {
            assert(row_occupied(self.en(), waste as int));
        }
        let ghost m = self.en();
        let r = self.enabled_queue.pop_max(waste);
        proof {
            let p = choose|p: int|
                {
                    &&& is_max_cell(m, waste as int, p)
                    &&& r == Some(m[(waste as int, p)][0])
                    &&& self.en() == m.insert((waste as int, p), m[(waste as int, p)].drop_first())
                };
            lemma_drop_first_keeps(m, (waste as int, p), self.symbols@);
            assert(m[(waste as int, p)][0].wf(self.symbols@));
        }
        r
    }

    /// Marks the bucket pruned; if that is new, moves its enabled
    /// candidates to the disabled grid. Returns whether any moved.
    pub fn disable(&mut self, bucket_id: &(usize, usize)) -> (r: bool)
        requires
            old(self).wf(),
            bucket_id.0 < usize::MAX,
            bucket_id.1 < usize::MAX,
        ensures
            final(self).wf(),
            ({
                let k = (bucket_id.0 as int, bucket_id.1 as int);
                &&& final(self).disabled@ == old(self).disabled@.insert(k)
                &&& if old(self).disabled@.contains(k) {
                    &&& !r
                    &&& final(self).en() == old(self).en()
                    &&& final(self).dis() == old(self).dis()
                } else {
                    &&& r == (old(self).en()[k].len() > 0)
                    &&& final(self).en() == if r { old(self).en().insert(k, Seq::empty()) } else { old(self).en() }
                    &&& final(self).dis() == if r { old(self).dis().insert(k, old(self).en()[k]) } else { old(self).dis() }
                }
            }),
            final(self).total_len() == old(self).total_len(),
            final(self).symbols == old(self).symbols,
            final(self).disk == old(self).disk,
            final(self).spills == old(self).spills,
            final(self).loads == old(self).loads,
            final(self).queue_limit == old(self).queue_limit,
    {
        let ghost k = (bucket_id.0 as int, bucket_id.1 as int);
        let ghost before = *self;
        if self.disabled.insert(bucket_id.0, bucket_id.1) {
            assert(before.dis()[k].len() == 0);
            let moved = Self::swap(&mut self.enabled_queue, &mut self.disabled_queue, bucket_id);
            proof {
                if moved is Some {
                    lemma_move_cell_keeps(before.en(), before.dis(), k, self.symbols@);
                }
                assert forall|w: int, p: int| #[trigger] self.dis()[(w, p)].len() > 0 implies self.is_disabled(w, p) by {
                    if (w, p) != k {
                        assert(self.dis()[(w, p)] == before.dis()[(w, p)]);
                    }
                }
            }
            moved.is_some()
        } else {
            false
        }
    }

    /// Queues a candidate in the cell of its total waste and permutation
    /// count: in the disabled grid when that bucket is pruned. Then spills
    /// the disabled grid if memory is over the limit.
    pub fn add(&mut self, candidate: Candidate, n: usize)
        requires
            old(self).wf(),
            candidate.wf(n as nat),
            n == old(self).symbols@,
            old(self).total_len() < usize::MAX,
            old(self).total_len() + 1 <= old(self).queue_limit || old(self).disk_has_room(),
        ensures
            final(self).wf(),
            add_effect(old(self), final(self), candidate, n),
    {
        let wasted_symbols = candidate.total_waste(n);
        let permutations = candidate.number_of_permutations();
        let ghost k = (wasted_symbols as int, permutations as int);
        let ghost c = candidate;
        let ghost before = *self;
        if self.disabled.contains(wasted_symbols, permutations) {
            self.disabled_queue.push(wasted_symbols, permutations, candidate);
            proof {
                lemma_push_keeps(before.dis(), k, c, n as nat);
                assert forall|w: int, p: int| #[trigger] self.dis()[(w, p)].len() > 0 implies self.is_disabled(w, p) by {
                    if (w, p) != k {
                        assert(self.dis()[(w, p)] == before.dis()[(w, p)]);
                    }
                }
            }
        } else {
            self.enabled_queue.push(wasted_symbols, permutations, candidate);
            proof {
                lemma_push_keeps(before.en(), k, c, n as nat);
            }
        }
        let ghost mid = *self;
        assert(mid.total_len() == before.total_len() + 1);
        self.offload_buckets_to_disk();
        proof {
            assert(mid.dis() == before.dis_after_adding(c, n as nat));
        }
    }

    /// When more candidates than the limit are in memory, hands every
    /// occupied disabled cell out in `spills`, in order of `(w, p)`, each
    /// with the name of a new spill file for it.
    fn offload_buckets_to_disk(&mut self)
        requires
            old(self).wf(),
            old(self).total_len() <= old(self).queue_limit || old(self).disk_has_room(),
        ensures
            final(self).wf(),
            final(self).en() == old(self).en(),
            final(self).disabled == old(self).disabled,
            final(self).loads == old(self).loads,
            final(self).symbols == old(self).symbols,
            final(self).queue_limit == old(self).queue_limit,
            final(self).total_len() <= old(self).total_len(),
            old(self).total_len() <= old(self).queue_limit ==> *final(self) == *old(self),
            old(self).total_len() > old(self).queue_limit ==> spilled_all(
                old(self).dis(),
                old(self).disk,
                old(self).spills@,
                final(self).dis(),
                final(self).disk,
                final(self).spills@,
            ),
    {
        if self.len() <= self.queue_limit {
            return;
        }
        let ghost start = *self;
        let rows = self.disabled.rows();
        let mut w: usize = 0;
        proof {
            assert(self.spills@.subrange(0, start.spills@.len() as int) =~= start.spills@);
            assert forall|k: (int, int)| #[trigger] self.dis()[k] == if lex_lt(k, (0, 0)) { Seq::<Candidate>::empty() } else { start.dis()[k] } by {
                if lex_lt(k, (0, 0)) {
                    if start.dis()[k].len() > 0 {
                        assert(start.is_disabled(k.0, k.1));
                    }
                    assert(self.dis()[k] =~= Seq::<Candidate>::empty());
                }
            }
            assert forall|k: (int, int)| lex_lt(k, (0, 0)) && #[trigger] start.dis()[k].len() > 0 implies exists|j: int|
                start.spills@.len() <= j < self.spills@.len() && job_key(#[trigger] self.spills@[j]) == k by {
                assert(start.is_disabled(k.0, k.1));
            }
        }
        while w < rows
            invariant
                self.wf(),
                start.wf(),
                start.disk_has_room(),
                rows == start.disabled.spec_rows(),
                w <= rows,
                self.en() == start.en(),
                self.disabled == start.disabled,
                self.loads == start.loads,
                self.symbols == start.symbols,
                self.queue_limit == start.queue_limit,
                self.total_len() <= start.total_len(),
                spilled_upto(start.dis(), start.disk, start.spills@, self.dis(), self.disk, self.spills@, (w as int, 0)),
            decreases rows - w,
        {
            let row_len = self.disabled.row_len(w);
            let mut p: usize = 0;
            while p < row_len
                invariant
                    self.wf(),
                    start.wf(),
                    start.disk_has_room(),
                    rows == start.disabled.spec_rows(),
                    w < rows,
                    p <= row_len,
                    row_len == start.disabled.spec_row_len(w as int),
                    self.en() == start.en(),
                    self.disabled == start.disabled,
                    self.loads == start.loads,
                    self.symbols == start.symbols,
                    self.queue_limit == start.queue_limit,
                    self.total_len() <= start.total_len(),
                    spilled_upto(start.dis(), start.disk, start.spills@, self.dis(), self.disk, self.spills@, (w as int, p as int)),
                decreases row_len - p,
            {
                let ghost before = *self;
                let ghost k = (w as int, p as int);
                if Self::bucket_len(&self.disabled_queue, &(w, p)) > 0 {
                    assert(self.dis()[k] == start.dis()[k]);
                    assert(self.disk.entry(k.0, k.1) == start.disk.entry(k.0, k.1));
                    let filename = self.disk.filename_for_writing(w, p);
                    let taken = self.disabled_queue.take(w, p);
                    match taken {
                        Some(bucket) => {
                            self.spills.push(SpillJob { wasted_symbols: w, permutations: p, filename, bucket });
                            assert(self.spills@.subrange(0, before.spills@.len() as int) =~= before.spills@);
                        },
                        None => {},
                    }
                    proof {
                        lemma_spill_step(start.dis(), start.disk, start.spills@, before.dis(), before.disk, before.spills@,
                            self.dis(), self.disk, self.spills@, k);
                        lemma_take_keeps(before.dis(), k, self.symbols@);
                        assert forall|w2: int, p2: int| #[trigger] self.dis()[(w2, p2)].len() > 0 implies self.is_disabled(w2, p2) by {
                            if (w2, p2) != k {
                                assert(self.dis()[(w2, p2)] == before.dis()[(w2, p2)]);
                            }
                        }
                        assert forall|w2: int, p2: int| (#[trigger] self.disk.entry(w2, p2) matches Some((lo, hi)) ==> lo <= hi + 1) by {
                            if (w2, p2) != k {
                                assert(self.disk.entry(w2, p2) == before.disk.entry(w2, p2));
                            }
                        }
                    }
                } else {
                    proof {
                        lemma_skip_step(start.dis(), start.disk, start.spills@, self.dis(), self.disk, self.spills@, k);
                    }
                }
                p = p + 1;
            }
            proof {
                lemma_row_done(&start, self.dis(), self.disk, self.spills@, w as int, row_len as int);
            }
            w = w + 1;
        }
        proof {
            assert(spilled_upto(start.dis(), start.disk, start.spills@, self.dis(), self.disk, self.spills@, (rows as int, 0)));
            assert forall|k: (int, int)| #[trigger] start.dis()[k].len() > 0 implies lex_lt(k, (rows as int, 0)) by {
                assert(start.is_disabled(k.0, k.1));
            }
            assert forall|k: (int, int)| #[trigger] self.dis()[k].len() == 0 by {
                if !lex_lt(k, (rows as int, 0)) {
                    if start.dis()[k].len() > 0 {
                        assert(start.is_disabled(k.0, k.1));
                    }
                }
            }
        }
    }

    /// On reaching a waste level beyond the bounds table, takes back the
    /// most promising pruned bucket that could still beat the last lower
    /// bound: rows from `w - 1` down to 1, and in row `v` the counts from
    /// `upper_bounds[v] - 1` down to `lower + 1 - upper_bounds[w - 1 - v]`.
    /// Returns the row taken back, or `wasted_symbols` when none was.
    pub fn unprune(&mut self, wasted_symbols: usize, lower_bounds: &[usize], upper_bounds: &[usize]) -> (r: usize)
        requires
            old(self).wf(),
            old(self).disk_has_room(),
            1 <= lower_bounds@.len() <= upper_bounds@.len(),
            wasted_symbols <= lower_bounds@.len(),
            wasted_symbols == lower_bounds@.len() ==> {
                &&& lower_bounds@[wasted_symbols - 1] < usize::MAX
                &&& forall|a: int| 0 <= a < wasted_symbols - 1 ==> upper_bounds@[a] <= lower_bounds@[wasted_symbols - 1]
            },
        ensures
            final(self).wf(),
            final(self).disk_has_room(),
            unprune_effect(old(self), final(self), wasted_symbols as int, lower_bounds@, upper_bounds@, r as int),
    {
        if wasted_symbols < lower_bounds.len() {
            return wasted_symbols;
        }
        let previous_waste = wasted_symbols - 1;
        let lower_bound = lower_bounds[previous_waste];
        let ghost start = *self;
        let ghost lb = lower_bound as int;
        let ghost up = upper_bounds@;
        let ghost prev = previous_waste as int;
        let mut w: usize = wasted_symbols;
        while w > 1
            invariant
                self.wf(),
                self.disk_has_room(),
                w <= wasted_symbols,
                previous_waste + 1 == wasted_symbols,
                wasted_symbols == lower_bounds@.len(),
                lower_bounds@.len() <= upper_bounds@.len(),
                up == upper_bounds@,
                lb == lower_bound,
                prev == previous_waste,
                lower_bound == lower_bounds@[previous_waste as int],
                lower_bound < usize::MAX,
                forall|a: int| 0 <= a < previous_waste ==> upper_bounds@[a] <= lower_bound,
                start == *old(self),
                *self == start,
                forall|w2: int, p2: int|
                    w <= w2 && #[trigger] in_unprune_scan(lb, up, prev, w2, p2) ==> !can_bring_back(&start, (w2, p2)),
            decreases w,
        {
            w = w - 1;
            let allowed_waste = previous_waste - w;
            let max_permutations = upper_bounds[allowed_waste];
            let min = lower_bound - max_permutations + 1;
            let max = upper_bounds[w];
            let mut p = max;
            while p > min
                invariant
                    self.wf(),
                    self.disk_has_room(),
                    1 <= w <= previous_waste,
                    previous_waste + 1 == wasted_symbols,
                    wasted_symbols == lower_bounds@.len(),
                    lower_bounds@.len() <= upper_bounds@.len(),
                    up == upper_bounds@,
                    lb == lower_bound,
                    prev == previous_waste,
                    lower_bound == lower_bounds@[previous_waste as int],
                    min == lower_bound - upper_bounds@[previous_waste - w] + 1,
                    max == upper_bounds@[w as int],
                    p <= max,
                    min <= p || p == max,
                    start == *old(self),
                    *self == start,
                    forall|w2: int, p2: int|
                        (w < w2 || (w2 == w && p <= p2)) && #[trigger] in_unprune_scan(lb, up, prev, w2, p2)
                            ==> !can_bring_back(&start, (w2, p2)),
                decreases p,
            {
                p = p - 1;
                if self.enable(&(w, p)) {
                    proof {
                        assert(in_unprune_scan(lb, up, prev, w as int, p as int));
                        assert forall|w2: int, p2: int|
                            #[trigger] in_unprune_scan(lb, up, prev, w2, p2) && scanned_before(w2, p2, w as int, p as int)
                                implies !can_bring_back(&start, (w2, p2)) by {}
                    }
                    return w;
                }
            }
            proof {
                assert forall|w2: int, p2: int|
                    w <= w2 && #[trigger] in_unprune_scan(lb, up, prev, w2, p2) implies !can_bring_back(&start, (w2, p2)) by {
                    if w2 == w {
                        assert(min <= p2 && p2 < max);
                    }
                }
            }
        }
        proof {
            assert forall|w2: int, p2: int| #[trigger] in_unprune_scan(lb, up, prev, w2, p2) implies !can_bring_back(&start, (w2, p2)) by {}
        }
        wasted_symbols
    }

    /// Takes a pruned bucket back into the search. A bucket with a spill
    /// file waiting asks for the oldest one in `loads` (see `install`);
    /// otherwise a bucket with disabled candidates stops being pruned and
    /// they become enabled. A bucket with nothing to bring back stays
    /// pruned. Returns whether candidates are on their way.
    pub fn enable(&mut self, bucket_id: &(usize, usize)) -> (r: bool)
        requires
            old(self).wf(),
            old(self).disk_has_room(),
        ensures
            final(self).wf(),
            final(self).disk_has_room(),
            r == can_bring_back(old(self), (bucket_id.0 as int, bucket_id.1 as int)),
            r ==> enabled_from(old(self), final(self), (bucket_id.0 as int, bucket_id.1 as int)),
            !r ==> *final(self) == *old(self),
    {
        let ghost k = (bucket_id.0 as int, bucket_id.1 as int);
        if !self.disabled.contains(bucket_id.0, bucket_id.1) {
            return false;
        }
        if self.onload_from_disk(bucket_id) {
            return true;
        }
        if Self::bucket_len(&self.disabled_queue, bucket_id) == 0 {
            return false;
        }
        let ghost before = *self;
        self.disabled.remove(bucket_id.0, bucket_id.1);
        Self::swap(&mut self.disabled_queue, &mut self.enabled_queue, bucket_id);
        proof {
            lemma_move_cell_keeps(before.dis(), before.en(), k, self.symbols@);
            assert forall|w: int, p: int| #[trigger] self.dis()[(w, p)].len() > 0 implies self.is_disabled(w, p) by {
                if (w, p) != k {
                    assert(self.dis()[(w, p)] == before.dis()[(w, p)]);
                }
            }
        }
        true
    }

    /// Asks for the oldest spill file of the bucket, if one waits: the read
    /// cursor moves past it and `loads` gets the request.
    fn onload_from_disk(&mut self, bucket_id: &(usize, usize)) -> (r: bool)
        requires
            old(self).wf(),
            old(self).disk_has_room(),
        ensures
            final(self).wf(),
            final(self).disk_has_room(),
            r == old(self).file_waiting(bucket_id.0 as int, bucket_id.1 as int),
            !r ==> *final(self) == *old(self),
            r ==> ({
                let k = (bucket_id.0 as int, bucket_id.1 as int);
                &&& final(self).enabled_queue == old(self).enabled_queue
                &&& final(self).disabled_queue == old(self).disabled_queue
                &&& final(self).disabled == old(self).disabled
                &&& final(self).spills == old(self).spills
                &&& final(self).symbols == old(self).symbols
                &&& final(self).queue_limit == old(self).queue_limit
                &&& final(self).disk.path == old(self).disk.path
                &&& final(self).disk.gzip == old(self).disk.gzip
                &&& final(self).loads@.len() == old(self).loads@.len() + 1
                &&& final(self).loads@.subrange(0, old(self).loads@.len() as int) == old(self).loads@
                &&& final(self).loads@.last().wasted_symbols == bucket_id.0
                &&& final(self).loads@.last().permutations == bucket_id.1
                &&& final(self).loads@.last().filename@ == basename_text(old(self).disk.path@, old(self).disk.gzip, k.0 as nat, k.1 as nat)
                    + "."@ + decimal_text(old(self).disk.entry(k.0, k.1)->Some_0.0 as nat)
                &&& final(self).disk.entry(k.0, k.1) == Some(((old(self).disk.entry(k.0, k.1)->Some_0.0 + 1) as usize, old(self).disk.entry(k.0, k.1)->Some_0.1))
                &&& forall|w: int, p: int| (w, p) != k ==> final(self).disk.entry(w, p) == old(self).disk.entry(w, p)
            }),
    {
        let ghost k = (bucket_id.0 as int, bucket_id.1 as int);
        proof {
            assert(self.disk.entry(k.0, k.1) matches Some((lo, hi)) ==> lo <= hi + 1 && hi + 1 < usize::MAX);
        }
        let filename = match self.disk.filename_for_reading(bucket_id.0, bucket_id.1) {
            None => return false,
            Some(name) => name,
        };
        let ghost loads = self.loads@;
        self.loads.push(LoadJob { wasted_symbols: bucket_id.0, permutations: bucket_id.1, filename });
        assert(self.loads@.subrange(0, loads.len() as int) =~= loads);
        proof {
            assert forall|w: int, p: int| (#[trigger] self.disk.entry(w, p) matches Some((lo, hi)) ==> lo <= hi + 1) by {
                if (w, p) != k {
                    assert(self.disk.entry(w, p) == old(self).disk.entry(w, p));
                }
            }
        }
        true
    }

    /// Puts the candidates read back from a spill file into the enabled
    /// cell `(w, p)`, which must be empty.
    pub fn install(&mut self, wasted_symbols: usize, permutations: usize, bucket: VecDeque<Candidate>)
        requires
            old(self).wf(),
            old(self).en()[(wasted_symbols as int, permutations as int)].len() == 0,
            old(self).total_len() + bucket@.len() <= usize::MAX,
            forall|i: int| 0 <= i < bucket@.len() ==> (#[trigger] bucket@[i]).wf(old(self).symbols@)
                && cell_of(bucket@[i], old(self).symbols@) == (wasted_symbols as int, permutations as int),
        ensures
            final(self).wf(),
            final(self).en() == old(self).en().insert((wasted_symbols as int, permutations as int), bucket@),
            final(self).total_len() == old(self).total_len() + bucket@.len(),
            final(self).dis() == old(self).dis(),
            final(self).disabled == old(self).disabled,
            final(self).disk == old(self).disk,
            final(self).spills == old(self).spills,
            final(self).loads == old(self).loads,
            final(self).symbols == old(self).symbols,
            final(self).queue_limit == old(self).queue_limit,
    {
        let ghost m = self.en();
        let ghost k = (wasted_symbols as int, permutations as int);
        let ghost b = bucket@;
        self.enabled_queue.put(wasted_symbols, permutations, bucket);
        proof {
            let m2 = self.en();
            assert forall|w: int, p: int, i: int| 0 <= i < m2[(w, p)].len() implies (#[trigger] m2[(w, p)][i]).wf(self.symbols@)
                && cell_of(m2[(w, p)][i], self.symbols@) == (w, p) by {
                assert(m.dom().contains((w, p)));
                if (w, p) != k {
                    assert(m2[(w, p)] == m[(w, p)]);
                } else {
                    assert(m2[(w, p)] == b);
                }
            }
            assert forall|k2: (int, int)| m2.dom().contains(k2) by {
                assert(m.dom().contains(k2));
            }
        }
    }

    /// Moves cell `bucket_id` of `from` into `to`, in place of what `to`
    /// held there, when it holds anything.
    fn swap(from: &mut BucketGrid, to: &mut BucketGrid, bucket_id: &(usize, usize)) -> (r: Option<()>)
        requires
            grid_len(*old(from)) + grid_len(*old(to)) <= usize::MAX,
            forall|k: (int, int)| grid_cells(*old(from)).dom().contains(k),
            forall|k: (int, int)| grid_cells(*old(to)).dom().contains(k),
        ensures
            ({
                let k = (bucket_id.0 as int, bucket_id.1 as int);
                let f = grid_cells(*old(from))[k];
                if f.len() == 0 {
                    &&& r is None
                    &&& *final(from) == *old(from)
                    &&& *final(to) == *old(to)
                } else {
                    &&& r is Some
                    &&& grid_cells(*final(from)) == grid_cells(*old(from)).insert(k, Seq::empty())
                    &&& grid_cells(*final(to)) == grid_cells(*old(to)).insert(k, f)
                    &&& grid_len(*final(from)) + grid_len(*final(to)) + grid_cells(*old(to))[k].len()
                        == grid_len(*old(from)) + grid_len(*old(to))
                }
            }),
    {
        if Self::bucket_len(from, bucket_id) == 0 {
            return None;
        }
        let contents = from.take(bucket_id.0, bucket_id.1);
        match contents {
            Some(bucket) => to.put(bucket_id.0, bucket_id.1, bucket),
            None => {},
        }
        Some(())
    }

    fn bucket_len(queue: &BucketGrid, bucket_id: &(usize, usize)) -> (r: usize)
        ensures
            r == grid_cells(*queue)[(bucket_id.0 as int, bucket_id.1 as int)].len(),
    {
        queue.cell_len(bucket_id.0, bucket_id.1)
    }

    /// Prunes the buckets of total waste `wasted_symbols` (and, when
    /// `eager`, of every higher enabled waste) with fewer than `threshold`
    /// permutations: they are marked pruned and their candidates move to the
    /// disabled grid.
    pub fn prune(&mut self, wasted_symbols: usize, threshold: usize, eager: bool) -> (r: Option<()>)
        requires
            old(self).wf(),
            wasted_symbols < usize::MAX,
        ensures
            r is None,
            final(self).wf(),
            final(self).total_len() == old(self).total_len(),
            prune_effect(old(self), final(self), wasted_symbols as int, threshold as int, eager),
    {
        let max = if eager {
            match self.max_waste() {
                Some(m) => m,
                None => {
                    return None;
                },
            }
        } else {
            wasted_symbols
        };
        proof {
            if eager {
                self.lemma_rows_bounded(max as int);
            }
        }
        let ghost start = *self;
        let mut w = wasted_symbols;
        while w <= max
            invariant
                self.wf(),
                wasted_symbols <= w,
                max < usize::MAX,
                w <= max + 1 || w == wasted_symbols,
                self.total_len() == start.total_len(),
                self.symbols == start.symbols,
                self.disk == start.disk,
                self.spills == start.spills,
                self.loads == start.loads,
                self.queue_limit == start.queue_limit,
                pruned_from(&start, self, wasted_symbols as int, w - 1, threshold as int),
            decreases max + 1 - w,
        {
            let mut p: usize = 0;
            while p < threshold
                invariant
                    self.wf(),
                    wasted_symbols <= w <= max,
                    max < usize::MAX,
                    p <= threshold,
                    self.total_len() == start.total_len(),
                    self.symbols == start.symbols,
                    self.disk == start.disk,
                    self.spills == start.spills,
                    self.loads == start.loads,
                    self.queue_limit == start.queue_limit,
                    pruned_row_from(&start, self, wasted_symbols as int, w as int, p as int, threshold as int),
                decreases threshold - p,
            {
                let ghost before = *self;
                self.disable(&(w, p));
                proof {
                    lemma_prune_step(&start, &before, self, wasted_symbols as int, w as int, p as int, threshold as int);
                }
                p = p + 1;
            }
            proof {
                lemma_prune_row_done(&start, self, wasted_symbols as int, w as int, threshold as int);
            }
            w = w + 1;
        }
        proof {
            assert forall|k: (int, int)| in_prune_range(k, wasted_symbols as int, w - 1, threshold as int)
                == in_prune_range(k, wasted_symbols as int, max as int, threshold as int) by {}
            assert(pruned_from(&start, self, wasted_symbols as int, max as int, threshold as int));
            if eager {
                assert(is_max_row(start.en(), max as int));
            }
        }
        None
    }

    /// Every occupied row of the enabled grid is below `u16::MAX + 20`.
    proof fn lemma_rows_bounded(&self, w: int)
        requires
            self.wf(),
            row_occupied(self.en(), w),
        ensures
            w < u16::MAX + 20,
    {
        let p = choose|p: int| 0 <= p && #[trigger] self.en()[(w, p)].len() > 0;
        let c = self.en()[(w, p)][0];
        assert(c.wf(self.symbols@));
        assert(cell_of(c, self.symbols@) == (w, p));
    }

    pub fn memory_per_candidate(n: usize) -> (r: usize)
        requires
            1 <= n <= 20,
            factorial(n as nat) <= usize::MAX,
        ensures
            r == bytes_per_candidate(n as nat),
    {
        let factorial = Bounds::factorial(n);
        let bitset_bytes = factorial / 8 + if factorial % 8 == 0 { 0 } else { 1 };
        let tail_bytes = (n - 1) * 8;
        let waste_bytes: usize = 8;
        bitset_bytes + tail_bytes + waste_bytes
    }

    fn queue_limit(memory_limit: usize, n: usize) -> (r: usize)
        requires
            1 <= n <= 20,
            factorial(n as nat) <= usize::MAX,
        ensures
            r == memory_limit as nat / bytes_per_candidate(n as nat),
    {
        let bytes = Self::memory_per_candidate(n);
        memory_limit / bytes
    }
}

} // verus!

verus! {

/// Pruning a second time with the same arguments changes nothing: every
/// bucket of the block is pruned already, and the eager block cannot have
/// grown since the highest enabled row can only have come down.
pub proof fn lemma_prune_idempotent(a: &Frontier, b: &Frontier, c: &Frontier, w: int, t: int, eager: bool)
    requires
        a.wf(),
        b.wf(),
        c.wf(),
        prune_effect(a, b, w, t, eager),
        prune_effect(b, c, w, t, eager),
    ensures
        c.en() == b.en(),
        c.dis() == b.dis(),
        c.disabled@ == b.disabled@,
        c.disk == b.disk,
        c.spills == b.spills,
        c.loads == b.loads,
{
    let mut max1: int = w;
    if eager && !grid_empty(a.en()) {
        max1 = choose|max: int| is_max_row(a.en(), max) && #[trigger] pruned_from(a, b, w, max, t);
    }
    if !eager || !grid_empty(b.en()) {
        let mut max2: int = w;
        if eager {
            max2 = choose|max: int| is_max_row(b.en(), max) && #[trigger] pruned_from(b, c, w, max, t);
            let p = choose|p: int| 0 <= p && #[trigger] b.en()[(max2, p)].len() > 0;
            assert(b.en()[(max2, p)].len() > 0);
            if grid_empty(a.en()) {
                assert(b.en() == a.en());
                assert(a.en()[(max2, p)].len() == 0);
            } else {
                assert(a.en()[(max2, p)].len() > 0);
                assert(max2 <= max1);
            }
        }
        assert(pruned_from(b, c, w, max2, t));
        if !grid_empty(a.en()) || !eager {
            assert(pruned_from(a, b, w, max1, t));
            assert forall|k: (int, int)| in_prune_range(k, w, max2, t) implies b.disabled@.contains(k) by {
                assert(in_prune_range(k, w, max1, t));
            }
        }
        assert forall|k: (int, int)| c.en()[k] == b.en()[k] && c.dis()[k] == b.dis()[k] by {}
        assert(c.en() =~= b.en());
        assert(c.dis() =~= b.dis());
        assert(c.disabled@ =~= b.disabled@);
    }
}

} // verus!

verus! {

/// A bucket that `prune(w, thresholds[w], eager)` newly marks pruned lies
/// at a waste `w' >= w` with fewer permutations than the threshold of `w`,
/// and so, within the table, fewer than the threshold of `w'`.
pub proof fn lemma_pruned_bucket_below_threshold(
    a: &Frontier,
    b: &Frontier,
    bounds: &Bounds,
    w: int,
    eager: bool,
    k: (int, int),
)
    requires
        bounds.wf(),
        0 <= w < bounds.thresholds@.len(),
        prune_effect(a, b, w, bounds.thresholds@[w] as int, eager),
        b.disabled@.contains(k),
        !a.disabled@.contains(k),
    ensures
        w <= k.0,
        0 <= k.1 < bounds.thresholds@[w],
        k.0 < bounds.thresholds@.len() ==> k.1 < bounds.thresholds@[k.0],
{
    let t = bounds.thresholds@[w] as int;
    if !eager {
        assert(pruned_from(a, b, w, w, t));
        assert(in_prune_range(k, w, w, t));
    } else if grid_empty(a.en()) {
        assert(b.disabled@ == a.disabled@);
    } else {
        let max = choose|max: int| is_max_row(a.en(), max) && #[trigger] pruned_from(a, b, w, max, t);
        assert(in_prune_range(k, w, max, t));
    }
    if k.0 < bounds.thresholds@.len() {
        crate::bounds::lemma_threshold_covers_higher_waste(bounds, w, k.0, k.1);
    }
}

/// Every candidate held by a well-formed frontier on `n >= 2` symbols has
/// seen at most `n!` permutations and keeps between 1 and `n` symbols of
/// tail.
pub proof fn lemma_frontier_candidates_within_limits(f: &Frontier, enabled: bool, w: int, p: int, i: int)
    requires
        f.wf(),
        f.symbols@ >= 2,
        0 <= i < (if enabled { f.en() } else { f.dis() })[(w, p)].len(),
    ensures
        ({
            let c = (if enabled { f.en() } else { f.dis() })[(w, p)][i];
            &&& c.perms().len() <= factorial(f.symbols@)
            &&& 1 <= c.tail_of_string@.len() <= f.symbols@
        }),
{
    let c = (if enabled { f.en() } else { f.dis() })[(w, p)][i];
    assert(c.wf(f.symbols@));
    lemma_candidate_within_limits(&c, f.symbols@);
}

/// A spilled bucket comes back whole: the job that spilled cell `k` holds
/// exactly the candidates the cell held, and installing that job's bucket
/// back gives the cell the same multiset of candidates, in the same order.
pub proof fn lemma_spill_round_trip(
    dis_a: Map<(int, int), Seq<Candidate>>,
    disk_a: Disk,
    jobs_a: Seq<SpillJob>,
    dis_b: Map<(int, int), Seq<Candidate>>,
    disk_b: Disk,
    jobs_b: Seq<SpillJob>,
    k: (int, int),
)
    requires
        spilled_all(dis_a, disk_a, jobs_a, dis_b, disk_b, jobs_b),
        dis_a[k].len() > 0,
    ensures
        exists|j: int|
            jobs_a.len() <= j < jobs_b.len() && job_key(#[trigger] jobs_b[j]) == k
                && jobs_b[j].bucket@ == dis_a[k]
                && jobs_b[j].bucket@.to_multiset() == dis_a[k].to_multiset(),
{
    let upto = choose|upto: (int, int)|
        #[trigger] spilled_upto(dis_a, disk_a, jobs_a, dis_b, disk_b, jobs_b, upto)
        && forall|k2: (int, int)| #[trigger] dis_a[k2].len() > 0 ==> lex_lt(k2, upto);
    assert(lex_lt(k, upto));
    let j = choose|j: int| jobs_a.len() <= j < jobs_b.len() && job_key(#[trigger] jobs_b[j]) == k;
    assert(jobs_b[j].bucket@ == dis_a[k]);
}

} // verus!
