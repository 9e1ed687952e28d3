use vstd::prelude::*;

use std::collections::VecDeque;

use bucket_queue::{BucketQueue, Deferred, FirstInFirstOutQueue, Queue};

use crate::candidate::Candidate;

verus! {

/// A two-level bucket queue of candidates: outer priority `w`, inner
/// priority `p`, and in each cell `(w, p)` a first-in-first-out sequence.
#[verifier::external_body]
pub struct BucketGrid {
    queue: BucketQueue<BucketQueue<VecDeque<Candidate>>>,
}

/// What each cell of a grid holds, for every pair of priorities.
pub uninterp spec fn grid_cells(g: BucketGrid) -> Map<(int, int), Seq<Candidate>>;

/// How many candidates a grid holds in all.
pub uninterp spec fn grid_len(g: BucketGrid) -> nat;

/// Some cell of row `w` holds a candidate.
pub open spec fn row_occupied(m: Map<(int, int), Seq<Candidate>>, w: int) -> bool {
    exists|p: int| 0 <= p && #[trigger] m[(w, p)].len() > 0
}

/// No cell holds a candidate.
pub open spec fn grid_empty(m: Map<(int, int), Seq<Candidate>>) -> bool {
    forall|w: int, p: int| 0 <= w && 0 <= p ==> #[trigger] m[(w, p)].len() == 0
}

/// `w` is the lowest occupied row.
pub open spec fn is_min_row(m: Map<(int, int), Seq<Candidate>>, w: int) -> bool {
    &&& 0 <= w
    &&& row_occupied(m, w)
    &&& forall|v: int, p: int| 0 <= v < w && 0 <= p ==> #[trigger] m[(v, p)].len() == 0
}

/// `w` is the highest occupied row.
pub open spec fn is_max_row(m: Map<(int, int), Seq<Candidate>>, w: int) -> bool {
    &&& 0 <= w
    &&& row_occupied(m, w)
    &&& forall|v: int, p: int| w < v && 0 <= p ==> #[trigger] m[(v, p)].len() == 0
}

/// `p` is the highest occupied cell of row `w`.
pub open spec fn is_max_cell(m: Map<(int, int), Seq<Candidate>>, w: int, p: int) -> bool {
    &&& 0 <= p
    &&& m[(w, p)].len() > 0
    &&& forall|q: int| p < q ==> #[trigger] m[(w, q)].len() == 0
}

impl BucketGrid {
    /// Relies on `BucketQueue::new`: every cell empty.
    #[verifier::external_body]
    pub fn new() -> (r: BucketGrid)
        ensures
            grid_cells(r) == Map::new(|k: (int, int)| true, |k: (int, int)| Seq::<Candidate>::empty()),
            grid_len(r) == 0,
    {
        BucketGrid { queue: BucketQueue::new() }
    }

    /// Relies on `BucketQueue::len`: the number of candidates held.
    #[verifier::external_body]
    pub fn len(&self) -> (r: usize)
        ensures
            r == grid_len(*self),
    {
        self.queue.len()
    }

    /// Relies on `Queue::bucket_for_adding` and `FirstInFirstOutQueue::enqueue`:
    /// `c` joins the back of cell `(w, p)`.
    #[verifier::external_body]
    pub fn push(&mut self, w: usize, p: usize, c: Candidate)
        requires
            grid_len(*old(self)) < usize::MAX,
        ensures
            grid_cells(*final(self)) == grid_cells(*old(self)).insert(
                (w as int, p as int),
                grid_cells(*old(self))[(w as int, p as int)].push(c),
            ),
            grid_len(*final(self)) == grid_len(*old(self)) + 1,
    {
        self.queue.bucket_for_adding(w).enqueue(c, p);
    }

    /// Relies on `Queue::min_priority`: the lowest occupied row.
    #[verifier::external_body]
    pub fn min_priority(&self) -> (r: Option<usize>)
        ensures
            r is None <==> grid_empty(grid_cells(*self)),
            r matches Some(w) ==> is_min_row(grid_cells(*self), w as int),
    {
        self.queue.min_priority()
    }

    /// Relies on `Queue::max_priority`: the highest occupied row.
    #[verifier::external_body]
    pub fn max_priority(&self) -> (r: Option<usize>)
        ensures
            r is None <==> grid_empty(grid_cells(*self)),
            r matches Some(w) ==> is_max_row(grid_cells(*self), w as int),
    {
        self.queue.max_priority()
    }

    /// Relies on `Queue::bucket_for_removing` and
    /// `FirstInFirstOutQueue::dequeue_max`: the front of the highest occupied
    /// cell of row `w` leaves it.
    #[verifier::external_body]
    pub fn pop_max(&mut self, w: usize) -> (r: Option<Candidate>)
        requires
            row_occupied(grid_cells(*old(self)), w as int),
        ensures
            exists|p: int|
                {
                    &&& is_max_cell(grid_cells(*old(self)), w as int, p)
                    &&& r == Some(grid_cells(*old(self))[(w as int, p)][0])
                    &&& grid_cells(*final(self)) == grid_cells(*old(self)).insert(
                        (w as int, p),
                        grid_cells(*old(self))[(w as int, p)].drop_first(),
                    )
                },
            grid_len(*final(self)) == grid_len(*old(self)) - 1,
    {
        self.queue.bucket_for_removing(w)?.dequeue_max()
    }

    /// Relies on `Queue::bucket_for_peeking` and `VecDeque::len`: the number
    /// of candidates in cell `(w, p)`.
    #[verifier::external_body]
    pub fn cell_len(&self, w: usize, p: usize) -> (r: usize)
        ensures
            r == grid_cells(*self)[(w as int, p as int)].len(),
    {
        match self.queue.bucket_for_peeking(w) {
            None => 0,
            Some(b) => match b.bucket_for_peeking(p) {
                None => 0,
                Some(b) => b.len(),
            },
        }
    }

    /// Relies on `Deferred::bucket` and `Queue::replace`: cell `(w, p)` is
    /// emptied and what it held handed back.
    #[verifier::external_body]
    pub fn take(&mut self, w: usize, p: usize) -> (r: Option<VecDeque<Candidate>>)
        ensures
            grid_cells(*final(self)) == grid_cells(*old(self)).insert((w as int, p as int), Seq::empty()),
            grid_len(*final(self)) + grid_cells(*old(self))[(w as int, p as int)].len() == grid_len(*old(self)),
            r matches Some(b) ==> b@ == grid_cells(*old(self))[(w as int, p as int)],
            r is None ==> grid_cells(*old(self))[(w as int, p as int)].len() == 0,
    {
        self.queue.bucket(w).replace(p, None)
    }

    /// Relies on `Deferred::bucket` and `Queue::replace`: cell `(w, p)` holds
    /// `b` afterwards, in place of what it held.
    #[verifier::external_body]
    pub fn put(&mut self, w: usize, p: usize, b: VecDeque<Candidate>)
        requires
            grid_len(*old(self)) + b@.len() <= usize::MAX,
        ensures
            grid_cells(*final(self)) == grid_cells(*old(self)).insert((w as int, p as int), b@),
            grid_len(*final(self)) + grid_cells(*old(self))[(w as int, p as int)].len() == grid_len(*old(self)) + b@.len(),
    {
        self.queue.bucket(w).replace(p, Some(b));
    }
}

} // verus!

verus! {

/// A grid has one lowest occupied row at most.
pub proof fn lemma_min_row_unique(m: Map<(int, int), Seq<Candidate>>, a: int, b: int)
    requires
        is_min_row(m, a),
        is_min_row(m, b),
    ensures
        a == b,
{
    let pa = choose|p: int| 0 <= p && #[trigger] m[(a, p)].len() > 0;
    let pb = choose|p: int| 0 <= p && #[trigger] m[(b, p)].len() > 0;
    assert(m[(a, pa)].len() > 0);
    assert(m[(b, pb)].len() > 0);
}

} // verus!
