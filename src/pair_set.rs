use vstd::prelude::*;

verus! {

/// A set of pairs of small numbers, kept as rows of flags: `(w, p)` is in
/// the set when flag `p` of row `w` is up. (vstd models std's hash sets
/// only for keys of its own integer and bool types, not for pairs.)
pub struct PairSet {
    pub rows: Vec<Vec<bool>>,
}

impl View for PairSet {
    type V = Set<(int, int)>;

    open spec fn view(&self) -> Set<(int, int)> {
        Set::new(|k: (int, int)| self.flag(k.0, k.1))
    }
}

impl PairSet {
    pub open spec fn flag(&self, w: int, p: int) -> bool {
        0 <= w < self.rows@.len() && 0 <= p < self.rows@[w]@.len() && self.rows@[w]@[p]
    }

    /// The number of rows: every pair of the set has `w` below it.
    pub open spec fn spec_rows(&self) -> nat {
        self.rows@.len()
    }

    /// The length of row `w`: every pair of the set in that row has `p` below it.
    pub open spec fn spec_row_len(&self, w: int) -> nat {
        if 0 <= w < self.rows@.len() { self.rows@[w]@.len() } else { 0 }
    }

    pub fn new() -> (r: Self)
        ensures
            r@ == Set::<(int, int)>::empty(),
    {
        let r = PairSet { rows: Vec::new() };
        assert(r@ =~= Set::<(int, int)>::empty());
        r
    }

    pub fn rows(&self) -> (r: usize)
        ensures
            r == self.spec_rows(),
            forall|k: (int, int)| self@.contains(k) ==> k.0 < r,
    {
        self.rows.len()
    }

    pub fn row_len(&self, w: usize) -> (r: usize)
        ensures
            r == self.spec_row_len(w as int),
            forall|k: (int, int)| self@.contains(k) && k.0 == w ==> k.1 < r,
    {
        if w < self.rows.len() {
            self.rows[w].len()
        } else {
            0
        }
    }

    pub fn contains(&self, w: usize, p: usize) -> (r: bool)
        ensures
            r == self@.contains((w as int, p as int)),
    {
        w < self.rows.len() && p < self.rows[w].len() && self.rows[w][p]
    }

    /// Adds `(w, p)`; returns whether it was new.
    pub fn insert(&mut self, w: usize, p: usize) -> (r: bool)
        requires
            w < usize::MAX,
            p < usize::MAX,
        ensures
            r == !old(self)@.contains((w as int, p as int)),
            final(self)@ == old(self)@.insert((w as int, p as int)),
    {
        if self.contains(w, p) {
            return false;
        }
        let ghost start = self@;
        while self.rows.len() <= w
            invariant
                w < usize::MAX,
                self@ == start,
            decreases w + 1 - self.rows@.len(),
        {
            let ghost before = *self;
            self.rows.push(Vec::new());
            assert forall|k: (int, int)| self.flag(k.0, k.1) == before.flag(k.0, k.1) by {
                if 0 <= k.0 < before.rows@.len() {
                    assert(self.rows@[k.0] == before.rows@[k.0]);
                }
            }
            assert(self@ =~= before@);
        }
        while self.rows[w].len() <= p
            invariant
                p < usize::MAX,
                w < self.rows@.len(),
                self@ == start,
            decreases p + 1 - self.rows@[w as int]@.len(),
        {
            let ghost before = *self;
            self.rows[w].push(false);
            assert forall|k: (int, int)| self.flag(k.0, k.1) == before.flag(k.0, k.1) by {
                if k.0 == w as int && 0 <= k.1 < before.rows@[k.0]@.len() {
                    assert(self.rows@[k.0]@[k.1] == before.rows@[k.0]@[k.1]);
                }
            }
            assert(self@ =~= before@);
        }
        let ghost before = *self;
        self.rows[w].set(p, true);
        assert forall|k: (int, int)| self.flag(k.0, k.1) == (before.flag(k.0, k.1) || k == (w as int, p as int)) by {
            if k.0 == w as int && k != (w as int, p as int) && 0 <= k.1 < before.rows@[k.0]@.len() {
                assert(self.rows@[k.0]@[k.1] == before.rows@[k.0]@[k.1]);
            }
        }
        assert(self@ =~= start.insert((w as int, p as int)));
        true
    }

    /// Removes `(w, p)`; returns whether it was there.
    pub fn remove(&mut self, w: usize, p: usize) -> (r: bool)
        ensures
            r == old(self)@.contains((w as int, p as int)),
            final(self)@ == old(self)@.remove((w as int, p as int)),
            final(self).spec_rows() == old(self).spec_rows(),
            forall|v: int| final(self).spec_row_len(v) == old(self).spec_row_len(v),
    {
        if !self.contains(w, p) {
            assert(self@ =~= self@.remove((w as int, p as int)));
            return false;
        }
        let ghost before = *self;
        self.rows[w].set(p, false);
        assert forall|k: (int, int)| self.flag(k.0, k.1) == (before.flag(k.0, k.1) && k != (w as int, p as int)) by {
            if k.0 == w as int && k != (w as int, p as int) && 0 <= k.1 < before.rows@[k.0]@.len() {
                assert(self.rows@[k.0]@[k.1] == before.rows@[k.0]@[k.1]);
            }
        }
        assert(self@ =~= before@.remove((w as int, p as int)));
        assert forall|v: int| self.spec_row_len(v) == before.spec_row_len(v) by {
            if 0 <= v < self.rows@.len() && v != w as int {
                assert(self.rows@[v] == before.rows@[v]);
            }
        }
        true
    }
}

} // verus!
