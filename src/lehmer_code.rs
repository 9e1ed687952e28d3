use vstd::prelude::*;

use lehmer::Lehmer;

use crate::math::{factorial, lemma_factorial_positive};

verus! {

#[verifier::external_type_specification]
pub struct ExLehmer(Lehmer);

/// A sequence of `len` distinct symbols, each below `len`.
pub open spec fn is_permutation(p: Seq<u8>) -> bool {
    &&& p.no_duplicates()
    &&& forall|i: int| 0 <= i < p.len() ==> p[i] < p.len()
}

/// How many symbols of `s` are smaller than `x`.
pub open spec fn count_below(s: Seq<u8>, x: u8) -> nat
    decreases s.len(),
{
    if s.len() == 0 {
        0
    } else {
        (if s[0] < x { 1nat } else { 0nat }) + count_below(s.drop_first(), x)
    }
}

/// The Lehmer digits of `p`: for each position, how many later symbols are
/// smaller.
pub open spec fn lehmer_digits(p: Seq<u8>) -> Seq<u8> {
    Seq::new(p.len(), |i: int| count_below(p.subrange(i + 1, p.len() as int), p[i]) as u8)
}

/// The number whose factorial-base digits are `code`, most significant
/// first: digit `k` weighs `(len - 1 - k)!`.
pub open spec fn factorial_base_value(code: Seq<u8>) -> nat
    decreases code.len(),
{
    if code.len() == 0 {
        0
    } else {
        (code[0] as nat) * factorial((code.len() - 1) as nat) + factorial_base_value(code.drop_first())
    }
}

/// Digit `k` of a factorial-base number of `len` digits is at most `len - 1 - k`.
pub open spec fn is_factorial_base(code: Seq<u8>) -> bool {
    forall|k: int| 0 <= k < code.len() ==> code[k] + k + 1 <= code.len()
}

/// The Lehmer code of a permutation: its rank among all permutations of
/// its length in lexicographic order.
pub open spec fn lehmer_code(p: Seq<u8>) -> nat {
    factorial_base_value(lehmer_digits(p))
}

/// Relies on `Lehmer::from_permutation`: for a permutation its digits count,
/// at each position, the smaller symbols that come later. Symbols below 32
/// keep its one-word bit string from overflowing.
pub assume_specification[ Lehmer::from_permutation ](slice: &[u8]) -> (r: Lehmer)
    requires
        is_permutation(slice@),
        slice@.len() <= 32,
    ensures
        r.code@ == lehmer_digits(slice@),
;

/// Relies on `Lehmer::to_decimal`: the factorial-base value of the digits
/// (it skips the last digit, which is zero here). Digits in factorial base,
/// with `len!` in range, keep its arithmetic in range.
pub assume_specification[ Lehmer::to_decimal ](l: Lehmer) -> (r: usize)
    requires
        is_factorial_base(l.code@),
        factorial(l.code@.len()) <= usize::MAX,
        l.code@.len() == 0 || l.code@.last() == 0,
    ensures
        r == factorial_base_value(l.code@),
;

pub proof fn lemma_count_below_len(s: Seq<u8>, x: u8)
    ensures
        count_below(s, x) <= s.len(),
    decreases s.len(),
{
    if s.len() > 0 {
        lemma_count_below_len(s.drop_first(), x);
    }
}

/// The digits of any sequence's Lehmer code are in factorial base, and the
/// last one is zero.
pub proof fn lemma_lehmer_digits_bounded(p: Seq<u8>)
    ensures
        is_factorial_base(lehmer_digits(p)),
        p.len() == 0 || lehmer_digits(p).last() == 0,
        lehmer_digits(p).len() == p.len(),
{
    let d = lehmer_digits(p);
    assert forall|k: int| 0 <= k < d.len() implies d[k] + k + 1 <= d.len() by {
        lemma_count_below_len(p.subrange(k + 1, p.len() as int), p[k]);
    }
    if p.len() > 0 {
        assert(p.subrange(p.len() as int, p.len() as int).len() == 0);
    }
}

/// A factorial-base number of `len` digits is below `len!`.
pub proof fn lemma_factorial_base_bound(code: Seq<u8>)
    requires
        is_factorial_base(code),
    ensures
        factorial_base_value(code) < factorial(code.len()),
    decreases code.len(),
{
    if code.len() > 0 {
        let rest = code.drop_first();
        let m = (code.len() - 1) as nat;
        assert forall|k: int| 0 <= k < rest.len() implies rest[k] + k + 1 <= rest.len() by {
            assert(rest[k] == code[k + 1]);
        }
        lemma_factorial_base_bound(rest);
        lemma_factorial_positive(m);
        let f = factorial(m);
        let d = code[0] as nat;
        assert(d <= m);
        assert(d * f + f <= (m + 1) * f) by (nonlinear_arith)
            requires
                d <= m,
        ;
        assert(factorial(code.len()) == code.len() * f);
    }
}

/// The Lehmer code of a permutation of `n` symbols is below `n!`.
pub proof fn lemma_lehmer_code_bound(p: Seq<u8>)
    ensures
        lehmer_code(p) < factorial(p.len()),
{
    lemma_lehmer_digits_bounded(p);
    lemma_factorial_base_bound(lehmer_digits(p));
}

/// The Lehmer code of the permutation `p`, of at most 20 symbols and with
/// `p.len()!` in range.
pub fn permutation_rank(p: &[u8]) -> (r: usize)
    requires
        is_permutation(p@),
        p@.len() <= 20,
        factorial(p@.len()) <= usize::MAX,
    ensures
        r == lehmer_code(p@),
{
    proof {
        lemma_lehmer_digits_bounded(p@);
    }
    let l = Lehmer::from_permutation(p);
    l.to_decimal()
}

} // verus!
