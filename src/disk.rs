use vstd::prelude::*;

use crate::decimal::{decimal, decimal_text};

verus! {

/// The bookkeeping of the spill files: where they live, whether they are
/// compressed, and for each bucket `(w, p)` the oldest file still present
/// and the newest one written.
pub struct Disk {
    pub path: String,
    pub gzip: bool,
    pub index: Vec<Vec<Option<(usize, usize)>>>,
}

/// The file name of bucket `(w, p)` before its sequence number.
pub open spec fn basename_text(path: Seq<char>, gzip: bool, w: nat, p: nat) -> Seq<char> {
    path + "/candidates-with-"@ + decimal_text(w) + "-wasted-symbols-and-"@ + decimal_text(p)
        + "-permutations.dat"@ + if gzip { ".gz"@ } else { Seq::<char>::empty() }
}

/// The counters of a bucket after one more file was written for it.
pub open spec fn entry_after_write(e: Option<(usize, usize)>) -> Option<(usize, usize)> {
    Some(
        match e {
            None => (0usize, 0usize),
            Some((lo, hi)) => (lo, (hi + 1) as usize),
        },
    )
}

/// The number of the file of a bucket to read next, if one waits.
pub open spec fn next_read(e: Option<(usize, usize)>) -> Option<usize> {
    match e {
        Some((lo, hi)) => if lo <= hi { Some(lo) } else { None },
        None => None,
    }
}

/// The counters of a bucket after its next file was read, if one waited.
pub open spec fn entry_after_read(e: Option<(usize, usize)>) -> Option<(usize, usize)> {
    match e {
        Some((lo, hi)) => if lo <= hi { Some(((lo + 1) as usize, hi)) } else { e },
        None => None,
    }
}

/// Spill files of a bucket are read back in the order they were written:
/// a file written when none waits is the next one read, and reading it
/// leaves none waiting; a file written while others wait leaves the next
/// read unchanged, so it comes after them.
pub proof fn lemma_files_first_in_first_out(e: Option<(usize, usize)>)
    requires
        e matches Some((lo, hi)) ==> lo <= hi + 1 && hi + 1 < usize::MAX,
    ensures
        next_read(e) is None ==> {
            &&& next_read(entry_after_write(e)) == Some(entry_after_write(e)->Some_0.1)
            &&& next_read(entry_after_read(entry_after_write(e))) is None
        },
        next_read(e) matches Some(i) ==> next_read(entry_after_write(e)) == Some(i),
{
}

impl Disk {
    /// `(read cursor, highest write)` of bucket `(w, p)`, if any file was
    /// written for it.
    pub open spec fn entry(&self, w: int, p: int) -> Option<(usize, usize)> {
        if 0 <= w < self.index@.len() && 0 <= p < self.index@[w]@.len() {
            self.index@[w]@[p]
        } else {
            None
        }
    }

    /// Every bucket's counters have room for one more file.
    pub open spec fn has_room_spec(&self) -> bool {
        forall|w: int, p: int| #[trigger] self.entry(w, p) matches Some((lo, hi)) ==> hi + 1 < usize::MAX
    }

    pub fn has_room(&self) -> (r: bool)
        ensures
            r == self.has_room_spec(),
    {
        let mut w: usize = 0;
        while w < self.index.len()
            invariant
                w <= self.index@.len(),
                forall|v: int, p: int| 0 <= v < w ==> (#[trigger] self.entry(v, p) matches Some((lo, hi)) ==> hi + 1 < usize::MAX),
            decreases self.index@.len() - w,
        {
            let mut p: usize = 0;
            while p < self.index[w].len()
                invariant
                    w < self.index@.len(),
                    p <= self.index@[w as int]@.len(),
                    forall|v: int, q: int| 0 <= v < w ==> (#[trigger] self.entry(v, q) matches Some((lo, hi)) ==> hi + 1 < usize::MAX),
                    forall|q: int| 0 <= q < p ==> (#[trigger] self.entry(w as int, q) matches Some((lo, hi)) ==> hi + 1 < usize::MAX),
                decreases self.index@[w as int]@.len() - p,
            {
                match self.index[w][p] {
                    Some((_, hi)) => {
                        if hi >= usize::MAX - 1 {
                            assert(self.entry(w as int, p as int) == Some(self.index@[w as int]@[p as int]->Some_0));
                            return false;
                        }
                    },
                    None => {},
                }
                p = p + 1;
            }
            assert forall|v: int, q: int| 0 <= v < w + 1 implies (#[trigger] self.entry(v, q) matches Some((lo, hi)) ==> hi + 1 < usize::MAX) by {
                if v == w as int && !(0 <= q < p) {
                    assert(self.entry(v, q) is None);
                }
            }
            w = w + 1;
        }
        assert forall|v: int, q: int| (#[trigger] self.entry(v, q) matches Some((lo, hi)) ==> hi + 1 < usize::MAX) by {
            if !(0 <= v < w) {
                assert(self.entry(v, q) is None);
            }
        }
        true
    }

    pub fn new(path: String, gzip: bool) -> (r: Self)
        ensures
            r.path@ == path@,
            r.gzip == gzip,
            forall|w: int, p: int| r.entry(w, p) is None,
    {
        Disk { path, gzip, index: Vec::new() }
    }

    /// `<path>/candidates-with-<w>-wasted-symbols-and-<p>-permutations.dat`,
    /// with `.gz` after it when compressing.
    pub fn basename(&self, wasted_symbols: usize, permutations: usize) -> (r: String)
        ensures
            r@ == basename_text(self.path@, self.gzip, wasted_symbols as nat, permutations as nat),
    {
        proof {
            reveal_strlit("/candidates-with-");
            reveal_strlit("-wasted-symbols-and-");
            reveal_strlit("-permutations.dat");
            reveal_strlit(".gz");
        }
        let mut r = self.path.clone();
        r.append("/candidates-with-");
        let w = decimal(wasted_symbols);
        r.append(w.as_str());
        r.append("-wasted-symbols-and-");
        let p = decimal(permutations);
        r.append(p.as_str());
        r.append("-permutations.dat");
        if self.gzip {
            r.append(".gz");
        }
        assert(r@ =~= basename_text(self.path@, self.gzip, wasted_symbols as nat, permutations as nat));
        r
    }

    /// The name of the oldest file still present for bucket `(w, p)`, which
    /// the caller is about to read: the read cursor moves past it. `None`
    /// when no file remains.
    pub fn filename_for_reading(&mut self, wasted_symbols: usize, permutations: usize) -> (r: Option<String>)
        requires
            old(self).entry(wasted_symbols as int, permutations as int) matches Some((lo, _)) ==> lo < usize::MAX,
        ensures
            final(self).path == old(self).path,
            final(self).gzip == old(self).gzip,
            match old(self).entry(wasted_symbols as int, permutations as int) {
                Some((lo, hi)) if lo <= hi => {
                    &&& r matches Some(name) && name@ == basename_text(old(self).path@, old(self).gzip, wasted_symbols as nat, permutations as nat)
                        + "."@ + decimal_text(lo as nat)
                    &&& final(self).entry(wasted_symbols as int, permutations as int) == Some(((lo + 1) as usize, hi))
                },
                _ => r is None && *final(self) == *old(self),
            },
            forall|w: int, p: int|
                (w, p) != (wasted_symbols as int, permutations as int) ==> final(self).entry(w, p) == old(self).entry(w, p),
    {
        let basename = self.basename(wasted_symbols, permutations);
        let index = match self.index_to_read_from(wasted_symbols, permutations) {
            Some(i) => i,
            None => return None,
        };
        Some(Self::numbered(basename, index))
    }

    /// The name of the next file to write for bucket `(w, p)`: one past the
    /// highest written so far, or 0 for the first.
    pub fn filename_for_writing(&mut self, wasted_symbols: usize, permutations: usize) -> (r: String)
        requires
            wasted_symbols < usize::MAX,
            permutations < usize::MAX,
            old(self).entry(wasted_symbols as int, permutations as int) matches Some((_, hi)) ==> hi < usize::MAX,
        ensures
            final(self).path == old(self).path,
            final(self).gzip == old(self).gzip,
            r@ == basename_text(old(self).path@, old(self).gzip, wasted_symbols as nat, permutations as nat) + "."@
                + decimal_text(final(self).entry(wasted_symbols as int, permutations as int)->Some_0.1 as nat),
            final(self).entry(wasted_symbols as int, permutations as int) == entry_after_write(
                old(self).entry(wasted_symbols as int, permutations as int),
            ),
            forall|w: int, p: int|
                (w, p) != (wasted_symbols as int, permutations as int) ==> final(self).entry(w, p) == old(self).entry(w, p),
    {
        let basename = self.basename(wasted_symbols, permutations);
        let index = self.index_to_write_to(wasted_symbols, permutations);
        Self::numbered(basename, index)
    }

    fn numbered(basename: String, index: usize) -> (r: String)
        ensures
            r@ == basename@ + "."@ + decimal_text(index as nat),
    {
        proof {
            reveal_strlit(".");
        }
        let mut r = basename;
        r.append(".");
        let i = decimal(index);
        r.append(i.as_str());
        r
    }

    /// Takes the read cursor of bucket `(w, p)` and moves it on, if a file
    /// remains there.
    pub fn index_to_read_from(&mut self, wasted_symbols: usize, permutations: usize) -> (r: Option<usize>)
        requires
            old(self).entry(wasted_symbols as int, permutations as int) matches Some((lo, _)) ==> lo < usize::MAX,
        ensures
            r == next_read(old(self).entry(wasted_symbols as int, permutations as int)),
            final(self).entry(wasted_symbols as int, permutations as int) == entry_after_read(
                old(self).entry(wasted_symbols as int, permutations as int),
            ),
            final(self).path == old(self).path,
            final(self).gzip == old(self).gzip,
            match old(self).entry(wasted_symbols as int, permutations as int) {
                Some((lo, hi)) if lo <= hi => {
                    &&& r == Some(lo)
                    &&& final(self).entry(wasted_symbols as int, permutations as int) == Some(((lo + 1) as usize, hi))
                },
                _ => r is None && *final(self) == *old(self),
            },
            forall|w: int, p: int|
                (w, p) != (wasted_symbols as int, permutations as int) ==> final(self).entry(w, p) == old(self).entry(w, p),
    {
        if wasted_symbols >= self.index.len() || permutations >= self.index[wasted_symbols].len() {
            return None;
        }
        let (min, max) = match self.index[wasted_symbols][permutations] {
            Some(e) => e,
            None => return None,
        };
        if min <= max {
            let ghost before = *self;
            self.index[wasted_symbols].set(permutations, Some((min + 1, max)));
            assert forall|w: int, p: int|
                (w, p) != (wasted_symbols as int, permutations as int) implies self.entry(w, p) == before.entry(w, p) by {
                if w == wasted_symbols as int {
                    assert(self.index@[w]@ == before.index@[w]@.update(permutations as int, Some(((min + 1) as usize, max))));
                }
            }
            Some(min)
        } else {
            None
        }
    }

    /// Moves the highest-write mark of bucket `(w, p)` on and returns it:
    /// 0 for a bucket never written.
    pub fn index_to_write_to(&mut self, wasted_symbols: usize, permutations: usize) -> (r: usize)
        requires
            wasted_symbols < usize::MAX,
            permutations < usize::MAX,
            old(self).entry(wasted_symbols as int, permutations as int) matches Some((_, hi)) ==> hi < usize::MAX,
        ensures
            final(self).path == old(self).path,
            final(self).gzip == old(self).gzip,
            final(self).entry(wasted_symbols as int, permutations as int) == entry_after_write(
                old(self).entry(wasted_symbols as int, permutations as int),
            ),
            r == final(self).entry(wasted_symbols as int, permutations as int)->Some_0.1,
            forall|w: int, p: int|
                (w, p) != (wasted_symbols as int, permutations as int) ==> final(self).entry(w, p) == old(self).entry(w, p),
    {
        let ghost start = *self;
        while self.index.len() <= wasted_symbols
            invariant
                wasted_symbols < usize::MAX,
                self.path == start.path,
                self.gzip == start.gzip,
                forall|w: int, p: int| self.entry(w, p) == start.entry(w, p),
            decreases wasted_symbols + 1 - self.index@.len(),
        {
            let ghost before = *self;
            self.index.push(Vec::new());
            assert forall|w: int, p: int| self.entry(w, p) == before.entry(w, p) by {
                if 0 <= w < before.index@.len() {
                    assert(self.index@[w] == before.index@[w]);
                }
            }
        }
        while self.index[wasted_symbols].len() <= permutations
            invariant
                permutations < usize::MAX,
                wasted_symbols < self.index@.len(),
                self.path == start.path,
                self.gzip == start.gzip,
                forall|w: int, p: int| self.entry(w, p) == start.entry(w, p),
            decreases permutations + 1 - self.index@[wasted_symbols as int]@.len(),
        {
            let ghost before = *self;
            self.index[wasted_symbols].push(None);
            assert forall|w: int, p: int| self.entry(w, p) == before.entry(w, p) by {
                if w == wasted_symbols as int && 0 <= p < before.index@[w]@.len() {
                    assert(self.index@[w]@[p] == before.index@[w]@[p]);
                }
            }
        }
        let tuple = match self.index[wasted_symbols][permutations] {
            None => (0, 0),
            Some((min, max)) => (min, max + 1),
        };
        let ghost before = *self;
        self.index[wasted_symbols].set(permutations, Some(tuple));
        assert forall|w: int, p: int|
            (w, p) != (wasted_symbols as int, permutations as int) implies self.entry(w, p) == before.entry(w, p) by {
            if w == wasted_symbols as int {
                assert(self.index@[w]@ == before.index@[w]@.update(permutations as int, Some(tuple)));
            }
        }
        tuple.1
    }
}

} // verus!
