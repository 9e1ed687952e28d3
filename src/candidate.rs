use vstd::prelude::*;

use bit_set::BitSet;

use crate::bounds::Bounds;
use crate::lehmer_code::{is_permutation, lehmer_code, lemma_lehmer_code_bound, permutation_rank};
use crate::math::factorial;

verus! {

#[verifier::external_type_specification]
#[verifier::external_body]
#[verifier::reject_recursive_types(B)]
pub struct ExBitSet<B>(BitSet<B>);

/// The numbers that a bit set holds.
pub uninterp spec fn bits_of(b: BitSet) -> Set<nat>;

/// Relies on `BitSet::with_capacity`: a set that holds nothing yet.
#[verifier::external_body]
fn bits_with_capacity(nbits: usize) -> (r: BitSet)
    ensures
        bits_of(r) == Set::<nat>::empty(),
{
    BitSet::with_capacity(nbits)
}

/// Relies on `BitSet::insert`: `value` is in the set afterwards, and
/// nothing else changed.
#[verifier::external_body]
fn bits_insert(b: &mut BitSet, value: usize)
    requires
        value < usize::MAX,
    ensures
        bits_of(*final(b)) == bits_of(*old(b)).insert(value as nat),
{
    b.insert(value);
}

/// Relies on `BitSet::contains`: membership.
#[verifier::external_body]
fn bits_contains(b: &BitSet, value: usize) -> (r: bool)
    ensures
        r == bits_of(*b).contains(value as nat),
{
    b.contains(value)
}

/// Relies on `BitSet::len`: the number of elements.
#[verifier::external_body]
fn bits_len(b: &BitSet) -> (r: usize)
    ensures
        r == bits_of(*b).len(),
{
    b.len()
}

/// Relies on `BitSet::clone`: a set with the same elements.
#[verifier::external_body]
fn bits_clone(b: &BitSet) -> (r: BitSet)
    ensures
        bits_of(r) == bits_of(*b),
{
    b.clone()
}

/// The tail after appending `s` to a string whose last symbols are `t`, on
/// an alphabet of `n` symbols: the symbols after an earlier `s`, or all of
/// `t` while it is short of `n - 1`, or all but its first; then `s`.
pub open spec fn next_tail(t: Seq<u8>, s: u8, n: nat) -> Seq<u8> {
    if t.contains(s) {
        t.subrange(t.index_of(s) + 1, t.len() as int).push(s)
    } else if t.len() + 1 < n {
        t.push(s)
    } else {
        t.subrange(1, t.len() as int).push(s)
    }
}

/// The smallest symbol in `[k, n)` that `t` lacks.
pub open spec fn first_missing_from(t: Seq<u8>, k: nat, n: nat) -> Option<u8>
    decreases n - k,
{
    if k >= n {
        None
    } else if !t.contains(k as u8) {
        Some(k as u8)
    } else {
        first_missing_from(t, k + 1, n)
    }
}

/// Whether the only permutation that can follow the tail `t` next has been
/// seen already: the one that `t` completes with the symbol it lacks.
pub open spec fn seen_next(perms: Set<nat>, t: Seq<u8>, n: nat) -> bool {
    match first_missing_from(t, 0, n) {
        Some(m) => perms.contains(lehmer_code(t.push(m))),
        None => false,
    }
}

/// The symbol of the `i`-th child when the tail ends in `last`.
pub open spec fn child_symbol(i: int, last: u8) -> u8 {
    if i < last { i as u8 } else { (i + 1) as u8 }
}

/// The child of the state `(perms, t, waste)` for the symbol `s`, as
/// `(permutations seen, tail, wasted symbols)`.
pub open spec fn child_model(
    perms: Set<nat>,
    t: Seq<u8>,
    waste: int,
    s: u8,
    at_upper_bound: bool,
    n: nat,
) -> (Set<nat>, Seq<u8>, int) {
    let t2 = next_tail(t, s, n);
    if t.len() + 1 < n || t2.len() + 1 < n || s == t[0] || at_upper_bound {
        (perms, t2, waste + 1)
    } else {
        let id = lehmer_code(t.push(s));
        if !perms.contains(id) {
            (perms.insert(id), t2, waste)
        } else if seen_next(perms, t2, n) {
            (perms, t2, waste + 2)
        } else {
            (perms, t2, waste + 1)
        }
    }
}

/// A node of the search: the permutations that its string holds (by
/// Lehmer code), the last symbols of that string, and how many of its
/// symbols were wasted.
#[derive(Debug, PartialEq)]
pub struct Candidate {
    pub permutations_seen: BitSet,
    pub tail_of_string: Vec<u8>,
    pub wasted_symbols: u16,
}

impl Candidate {
    pub open spec fn perms(&self) -> Set<nat> {
        bits_of(self.permutations_seen)
    }

    /// `(permutations seen, tail, wasted symbols)`
    pub open spec fn model(&self) -> (Set<nat>, Seq<u8>, int) {
        (self.perms(), self.tail_of_string@, self.wasted_symbols as int)
    }

    /// The candidate's invariant, on an alphabet of `n` symbols.
    pub open spec fn wf(&self, n: nat) -> bool {
        let t = self.tail_of_string@;
        &&& 1 <= n <= 20
        &&& factorial(n) <= usize::MAX
        &&& t.len() + 1 <= n
        &&& (n >= 2 ==> t.len() >= 1)
        &&& t.no_duplicates()
        &&& forall|i: int| 0 <= i < t.len() ==> t[i] < n
        &&& self.perms().finite()
        &&& forall|x: nat| self.perms().contains(x) ==> x < factorial(n)
    }

    /// The first node: the string `0 1 ... n-1`, whose permutation has code 0.
    pub fn seed(n: usize) -> (r: Self)
        requires
            1 <= n <= 20,
            factorial(n as nat) <= usize::MAX,
        ensures
            r.wf(n as nat),
            r.perms() == Set::<nat>::empty().insert(0),
            r.tail_of_string@ == Seq::new((n - 1) as nat, |i: int| (i + 1) as u8),
            r.wasted_symbols == 0,
    {
        proof {
            crate::math::lemma_factorial_positive(n as nat);
        }
        let max_value = Bounds::factorial(n);
        let mut seen = bits_with_capacity(max_value);
        bits_insert(&mut seen, 0);
        let mut tail: Vec<u8> = Vec::new();
        let mut s: u8 = 1;
        while (s as usize) < n
            invariant
                1 <= s <= n,
                n <= 20,
                tail@ == Seq::new((s - 1) as nat, |i: int| (i + 1) as u8),
            decreases n - s,
        {
            tail.push(s);
            s = s + 1;
        }
        let r = Candidate { permutations_seen: seen, tail_of_string: tail, wasted_symbols: 0 };
        assert(r.perms() =~= Set::<nat>::empty().insert(0));
        r
    }

    pub fn number_of_permutations(&self) -> (r: usize)
        ensures
            r == self.perms().len(),
    {
        bits_len(&self.permutations_seen)
    }

    /// Symbols still needed before the tail can complete a permutation.
    pub fn future_waste(&self, n: usize) -> (r: usize)
        requires
            self.tail_of_string@.len() + 1 <= n,
        ensures
            r == n - self.tail_of_string@.len() - 1,
    {
        n - self.tail_of_string.len() - 1
    }

    /// The wasted symbols so far and those still to come: the frontier's
    /// outer priority.
    pub fn total_waste(&self, n: usize) -> (r: usize)
        requires
            self.tail_of_string@.len() + 1 <= n <= 20,
        ensures
            r == self.wasted_symbols + n - self.tail_of_string@.len() - 1,
    {
        self.wasted_symbols as usize + self.future_waste(n)
    }

    /// The children: one for each symbol but the tail's last, in ascending
    /// order of symbol. A candidate whose count of permutations equals
    /// `upper_bound` only wastes in each child. An empty tail (one symbol
    /// in all) has no children.
    pub fn expand(self, upper_bound: usize, n: usize) -> (r: Vec<Self>)
        requires
            self.wf(n as nat),
            self.wasted_symbols + 2 <= u16::MAX,
        ensures
            self.tail_of_string@.len() == 0 ==> r@.len() == 0,
            self.tail_of_string@.len() >= 1 ==> r@.len() == n - 1,
            forall|i: int|
                0 <= i < r@.len() ==> {
                    &&& (#[trigger] r@[i]).wf(n as nat)
                    &&& r@[i].model() == child_model(
                        self.perms(),
                        self.tail_of_string@,
                        self.wasted_symbols as int,
                        child_symbol(i, self.tail_of_string@.last()),
                        self.perms().len() == upper_bound,
                        n as nat,
                    )
                },
    {
        let mut children: Vec<Self> = Vec::new();
        if self.tail_of_string.len() == 0 {
            return children;
        }
        let last_symbol = self.tail_of_string[self.tail_of_string.len() - 1];
        let at_upper_bound = self.number_of_permutations() == upper_bound;
        let mut s: u8 = 0;
        while (s as usize) < n
            invariant
                self.wf(n as nat),
                self.wasted_symbols + 2 <= u16::MAX,
                self.tail_of_string@.len() >= 1,
                last_symbol == self.tail_of_string@.last(),
                at_upper_bound == (self.perms().len() == upper_bound),
                s <= n,
                children@.len() == if s <= last_symbol { s as int } else { s - 1 },
                forall|i: int|
                    0 <= i < children@.len() ==> {
                        &&& (#[trigger] children@[i]).wf(n as nat)
                        &&& children@[i].model() == child_model(
                            self.perms(),
                            self.tail_of_string@,
                            self.wasted_symbols as int,
                            child_symbol(i, last_symbol),
                            at_upper_bound,
                            n as nat,
                        )
                    },
            decreases n - s,
        {
            if s != last_symbol {
                let child = self.expand_one(s, at_upper_bound, n);
                children.push(child);
            }
            s = s + 1;
        }
        children
    }

    /// The child for appending `symbol`. `at_upper_bound` says that this
    /// branch cannot beat the current ceiling: the child then only wastes.
    pub fn expand_one(&self, symbol: u8, at_upper_bound: bool, n: usize) -> (r: Self)
        requires
            self.wf(n as nat),
            n >= 2,
            symbol < n,
            self.wasted_symbols + 2 <= u16::MAX,
        ensures
            r.wf(n as nat),
            r.model() == child_model(
                self.perms(),
                self.tail_of_string@,
                self.wasted_symbols as int,
                symbol,
                at_upper_bound,
                n as nat,
            ),
    {
        let ghost t = self.tail_of_string@;
        let tail_of_string = self.build_tail(symbol, n);
        proof {
            lemma_next_tail(t, symbol, n as nat);
        }
        if Self::less_than_full(self.tail_of_string.as_slice(), n) {
            return self.candidate_with_wasted_symbol(tail_of_string, 1);
        }
        if Self::less_than_full(tail_of_string.as_slice(), n) {
            return self.candidate_with_wasted_symbol(tail_of_string, 1);
        }
        if self.tail_starts_with(symbol) {
            return self.candidate_with_wasted_symbol(tail_of_string, 1);
        }
        if at_upper_bound {
            return self.candidate_with_wasted_symbol(tail_of_string, 1);
        }
        proof {
            lemma_fresh_symbol_completes(t, symbol, n as nat);
        }
        let id = Self::permutation_id(self.tail_of_string.as_slice(), symbol);
        proof {
            lemma_lehmer_code_bound(t.push(symbol));
        }
        if bits_contains(&self.permutations_seen, id) {
            let penalty: u16 = if self.seen_next_tail_as_well(tail_of_string.as_slice(), n) {
                2
            } else {
                1
            };
            return self.candidate_with_wasted_symbol(tail_of_string, penalty);
        }
        self.candidate_with_new_permutation(tail_of_string, id, n)
    }

    fn candidate_with_wasted_symbol(&self, tail_of_string: Vec<u8>, penalty: u16) -> (r: Self)
        requires
            self.wasted_symbols + penalty <= u16::MAX,
        ensures
            r.perms() == self.perms(),
            r.tail_of_string@ == tail_of_string@,
            r.wasted_symbols == self.wasted_symbols + penalty,
    {
        Candidate {
            permutations_seen: bits_clone(&self.permutations_seen),
            tail_of_string: tail_of_string,
            wasted_symbols: self.wasted_symbols + penalty,
        }
    }

    fn candidate_with_new_permutation(&self, tail_of_string: Vec<u8>, id: usize, n: usize) -> (r: Self)
        requires
            self.wf(n as nat),
            id < factorial(n as nat),
        ensures
            r.perms() == self.perms().insert(id as nat),
            r.tail_of_string@ == tail_of_string@,
            r.wasted_symbols == self.wasted_symbols,
    {
        let mut permutations_seen = bits_clone(&self.permutations_seen);
        bits_insert(&mut permutations_seen, id);
        let wasted_symbols = self.wasted_symbols;
        Candidate { permutations_seen, tail_of_string, wasted_symbols }
    }

    fn less_than_full(tail_of_string: &[u8], n: usize) -> (r: bool)
        requires
            n >= 1,
        ensures
            r == (tail_of_string@.len() + 1 < n),
    {
        tail_of_string.len() < n - 1
    }

    fn tail_starts_with(&self, symbol: u8) -> (r: bool)
        requires
            self.tail_of_string@.len() >= 1,
        ensures
            r == (symbol == self.tail_of_string@[0]),
    {
        symbol == self.tail_of_string[0]
    }

    /// The Lehmer code of the permutation that `symbol` completes after the tail.
    fn permutation_id(tail_of_string: &[u8], symbol: u8) -> (r: usize)
        requires
            is_permutation(tail_of_string@.push(symbol)),
            tail_of_string@.len() + 1 <= 20,
            factorial(tail_of_string@.len() + 1) <= usize::MAX,
        ensures
            r == lehmer_code(tail_of_string@.push(symbol)),
    {
        let permutation = Self::append(tail_of_string, 0, symbol);
        assert(permutation@ == tail_of_string@.push(symbol));
        permutation_rank(permutation.as_slice())
    }

    fn build_tail(&self, symbol: u8, n: usize) -> (r: Vec<u8>)
        requires
            n >= 1,
            self.tail_of_string@.no_duplicates(),
            self.tail_of_string@.len() + 1 >= n ==> self.tail_of_string@.len() >= 1,
        ensures
            r@ == next_tail(self.tail_of_string@, symbol, n as nat),
    {
        let head = self.tail_of_string.as_slice();
        let ghost t = head@;
        let mut k: usize = 0;
        while k < head.len() && head[k] != symbol
            invariant
                head@ == t,
                k <= t.len(),
                forall|j: int| 0 <= j < k ==> t[j] != symbol,
            decreases t.len() - k,
        {
            k = k + 1;
        }
        let index = if k < head.len() {
            proof {
                assert(t.contains(symbol));
                let c = t.index_of(symbol);
                assert(t[c] == symbol);
                assert(c == k as int);
            }
            k + 1
        } else if Self::less_than_full(head, n) {
            proof {
                assert(!t.contains(symbol));
                assert(t.subrange(0, t.len() as int) == t);
            }
            0
        } else {
            assert(!t.contains(symbol));
            1
        };
        Self::append(head, index, symbol)
    }

    /// Whether the permutation that the tail completes with its one missing
    /// symbol has been seen already.
    fn seen_next_tail_as_well(&self, tail_of_string: &[u8], n: usize) -> (r: bool)
        requires
            self.wf(n as nat),
            tail_of_string@.no_duplicates(),
            tail_of_string@.len() + 1 == n,
            forall|i: int| 0 <= i < tail_of_string@.len() ==> tail_of_string@[i] < n,
        ensures
            r == seen_next(self.perms(), tail_of_string@, n as nat),
    {
        let ghost t = tail_of_string@;
        let mut symbols_in_tail: Vec<bool> = Vec::new();
        let mut v: usize = 0;
        while v < n
            invariant
                v <= n,
                symbols_in_tail@.len() == v,
                forall|x: int| 0 <= x < v ==> !symbols_in_tail@[x],
            decreases n - v,
        {
            symbols_in_tail.push(false);
            v = v + 1;
        }
        let mut i: usize = 0;
        while i < tail_of_string.len()
            invariant
                tail_of_string@ == t,
                i <= t.len(),
                t.len() + 1 == n,
                forall|j: int| 0 <= j < t.len() ==> t[j] < n,
                symbols_in_tail@.len() == n,
                forall|x: int|
                    0 <= x < n ==> (symbols_in_tail@[x] <==> exists|j: int| 0 <= j < i && t[j] == x),
            decreases t.len() - i,
        {
            let symbol = tail_of_string[i];
            symbols_in_tail.set(symbol as usize, true);
            proof {
                assert forall|x: int| 0 <= x < n implies (symbols_in_tail@[x] <==> exists|j: int|
                    0 <= j < i + 1 && t[j] == x) by {
                    if x == symbol as int {
                        assert(t[i as int] == x);
                    }
                }
            }
            i = i + 1;
        }
        let mut symbol: usize = 0;
        while symbol < n
            invariant
                tail_of_string@ == t,
                t.len() + 1 == n,
                t.no_duplicates(),
                forall|j: int| 0 <= j < t.len() ==> t[j] < n,
                self.wf(n as nat),
                symbol <= n,
                symbols_in_tail@.len() == n,
                forall|x: int|
                    0 <= x < n ==> (symbols_in_tail@[x] <==> exists|j: int| 0 <= j < t.len() && t[j] == x),
                first_missing_from(t, 0, n as nat) == first_missing_from(t, symbol as nat, n as nat),
            decreases n - symbol,
        {
            if !symbols_in_tail[symbol] {
                proof {
                    assert(!t.contains(symbol as u8));
                    lemma_missing_completes(t, symbol as u8, n as nat);
                }
                let id = Self::permutation_id(tail_of_string, symbol as u8);
                return bits_contains(&self.permutations_seen, id);
            }
            proof {
                assert(symbols_in_tail@[symbol as int]);
                let j = choose|j: int| 0 <= j < t.len() && t[j] == symbol as int;
                assert(t[j] == symbol as u8);
                assert(t.contains(symbol as u8));
            }
            symbol = symbol + 1;
        }
        false
    }

    /// `slice[start..]` followed by `symbol`.
    fn append(slice: &[u8], start: usize, symbol: u8) -> (r: Vec<u8>)
        requires
            start <= slice@.len(),
        ensures
            r@ == slice@.subrange(start as int, slice@.len() as int).push(symbol),
    {
        let mut r: Vec<u8> = Vec::new();
        let mut i: usize = start;
        while i < slice.len()
            invariant
                start <= i <= slice@.len(),
                r@ == slice@.subrange(start as int, i as int),
            decreases slice@.len() - i,
        {
            r.push(slice[i]);
            assert(slice@.subrange(start as int, i + 1) == slice@.subrange(start as int, i as int).push(slice@[i as int]));
            i = i + 1;
        }
        r.push(symbol);
        r
    }
}

/// The tail after a step keeps the candidate's invariant, and when it is
/// full after a full tail, the symbol was new to the tail.
proof fn lemma_next_tail(t: Seq<u8>, s: u8, n: nat)
    requires
        n >= 2,
        t.no_duplicates(),
        t.len() + 1 <= n,
        t.len() >= 1,
        forall|i: int| 0 <= i < t.len() ==> t[i] < n,
        s < n,
    ensures
        ({
            let t2 = next_tail(t, s, n);
            &&& t2.no_duplicates()
            &&& 1 <= t2.len() && t2.len() + 1 <= n
            &&& forall|i: int| 0 <= i < t2.len() ==> t2[i] < n
            &&& (t.len() + 1 == n && t2.len() + 1 == n && s != t[0]) ==> !t.contains(s)
                && t2 == t.subrange(1, t.len() as int).push(s)
        }),
{
    let t2 = next_tail(t, s, n);
    if t.contains(s) {
        let k = t.index_of(s);
        assert(t[k] == s);
        let u = t.subrange(k + 1, t.len() as int);
        assert forall|i: int, j: int| 0 <= i < t2.len() && 0 <= j < t2.len() && i != j implies t2[i] != t2[j] by {
            if i < u.len() && j < u.len() {
                assert(t[k + 1 + i] != t[k + 1 + j]);
            } else if i < u.len() {
                assert(t[k + 1 + i] != t[k]);
            } else if j < u.len() {
                assert(t[k + 1 + j] != t[k]);
            }
        }
        assert forall|i: int| 0 <= i < t2.len() implies t2[i] < n by {
            if i < u.len() {
                assert(t2[i] == t[k + 1 + i]);
            }
        }
        if k == 0 {
            assert(s == t[0]);
        }
    } else if t.len() + 1 < n {
        assert forall|i: int, j: int| 0 <= i < t2.len() && 0 <= j < t2.len() && i != j implies t2[i] != t2[j] by {
            if i < t.len() && j == t.len() {
                assert(t[i] != s);
            } else if j < t.len() && i == t.len() {
                assert(t[j] != s);
            }
        }
    } else {
        let u = t.subrange(1, t.len() as int);
        assert forall|i: int, j: int| 0 <= i < t2.len() && 0 <= j < t2.len() && i != j implies t2[i] != t2[j] by {
            if i < u.len() && j < u.len() {
                assert(t[1 + i] != t[1 + j]);
            } else if i < u.len() {
                assert(t[1 + i] != s);
            } else if j < u.len() {
                assert(t[1 + j] != s);
            }
        }
        assert forall|i: int| 0 <= i < t2.len() implies t2[i] < n by {
            if i < u.len() {
                assert(t2[i] == t[1 + i]);
            }
        }
    }
}

/// A full tail that lacks `s` forms a permutation with it.
proof fn lemma_fresh_symbol_completes(t: Seq<u8>, s: u8, n: nat)
    requires
        n >= 2,
        t.no_duplicates(),
        t.len() + 1 == n,
        t.len() >= 1,
        forall|i: int| 0 <= i < t.len() ==> t[i] < n,
        s < n,
        s != t[0],
        next_tail(t, s, n).len() + 1 == n,
    ensures
        is_permutation(t.push(s)),
{
    lemma_next_tail(t, s, n);
    lemma_missing_completes(t, s, n);
}

/// A tail of `n - 1` distinct symbols below `n`, with a symbol below `n`
/// that it lacks, is a permutation.
proof fn lemma_missing_completes(t: Seq<u8>, s: u8, n: nat)
    requires
        t.no_duplicates(),
        t.len() + 1 == n,
        forall|i: int| 0 <= i < t.len() ==> t[i] < n,
        s < n,
        !t.contains(s),
    ensures
        is_permutation(t.push(s)),
{
    let p = t.push(s);
    assert forall|i: int, j: int| 0 <= i < p.len() && 0 <= j < p.len() && i != j implies p[i] != p[j] by {
        if i < t.len() && j == t.len() {
            assert(t[i] != s);
        } else if j < t.len() && i == t.len() {
            assert(t[j] != s);
        }
    }
}

} // verus!

verus! {

/// A well-formed candidate on `n` symbols has seen at most `n!`
/// permutations and keeps at most `n` symbols of tail, and at least one
/// when `n >= 2`.
pub proof fn lemma_candidate_within_limits(c: &Candidate, n: nat)
    requires
        c.wf(n),
    ensures
        c.perms().len() <= factorial(n),
        c.tail_of_string@.len() <= n,
        n >= 2 ==> 1 <= c.tail_of_string@.len(),
{
    let all = Set::<nat>::range(0, factorial(n));
    vstd::set_lib::range_set_properties::<nat>(0, factorial(n));
    assert(c.perms().subset_of(all));
    vstd::set_lib::lemma_len_subset(c.perms(), all);
}

} // verus!
