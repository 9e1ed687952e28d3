use vstd::prelude::*;

verus! {

/// The answers of the startup questions.
pub struct UI {}

/// What `str::to_lowercase` makes of a text.
pub uninterp spec fn lowercase_of(s: Seq<char>) -> Seq<char>;

/// What `str::trim` makes of a text.
pub uninterp spec fn trimmed_of(s: Seq<char>) -> Seq<char>;

/// Relies on `str::to_lowercase`: the lower-case text, a function of the
/// text alone.
#[verifier::external_body]
fn lowercase(s: &str) -> (r: String)
    ensures
        r@ == lowercase_of(s@),
{
    s.to_lowercase()
}

/// Relies on `str::trim`: the text without surrounding whitespace, a
/// function of the text alone.
#[verifier::external_body]
fn trim(s: &str) -> (r: &str)
    ensures
        r@ == trimmed_of(s@),
{
    s.trim()
}

/// `y` and `yes` mean true, `n` and `no` false; nothing else means anything.
pub open spec fn answer_meaning(word: Seq<char>) -> Option<bool> {
    if word == "y"@ || word == "yes"@ {
        Some(true)
    } else if word == "n"@ || word == "no"@ {
        Some(false)
    } else {
        None
    }
}

/// The ASCII decimal digits.
pub open spec fn is_digit(c: char) -> bool {
    '0' <= c && c <= '9'
}

/// The number that the decimal digits `d` spell, most significant first.
pub open spec fn digits_value(d: Seq<char>) -> nat
    decreases d.len(),
{
    if d.len() == 0 {
        0
    } else {
        digits_value(d.drop_last()) * 10 + ((d.last() as int - '0' as int) as nat)
    }
}

/// What `usize::from_str` accepts: an optional `+`, then one or more
/// decimal digits whose value fits in a `usize`.
pub open spec fn parsed_usize(s: Seq<char>) -> Option<usize> {
    if all_digits(unsigned_part(s)) && digits_value(unsigned_part(s)) <= usize::MAX {
        Some(digits_value(unsigned_part(s)) as usize)
    } else {
        None
    }
}

/// `s` without a leading `+`.
pub open spec fn unsigned_part(s: Seq<char>) -> Seq<char> {
    if s.len() > 0 && s[0] == '+' { s.drop_first() } else { s }
}

/// One or more decimal digits.
pub open spec fn all_digits(d: Seq<char>) -> bool {
    d.len() > 0 && forall|i: int| 0 <= i < d.len() ==> is_digit(#[trigger] d[i])
}

/// A longer string of digits spells at least as much as its prefix.
proof fn lemma_digits_value_grows(d: Seq<char>, k: int)
    requires
        0 <= k <= d.len(),
        forall|i: int| 0 <= i < d.len() ==> is_digit(#[trigger] d[i]),
    ensures
        digits_value(d.subrange(0, k)) <= digits_value(d),
    decreases d.len() - k,
{
    if k < d.len() {
        let e = d.subrange(0, k + 1);
        assert(e.drop_last() =~= d.subrange(0, k));
        lemma_digits_value_grows(d, k + 1);
    } else {
        assert(d.subrange(0, k) =~= d);
    }
}

impl UI {
    /// The number an answer gives, with the whitespace around it ignored,
    /// as `str::parse` reads a `usize`.
    pub fn parse_integer(input: &str) -> (r: Option<usize>)
        ensures
            r == parsed_usize(trimmed_of(input@)),
    {
        let word = trim(input);
        Self::parse_decimal(word)
    }

    /// `s` read as a `usize`: an optional `+`, then decimal digits that fit.
    pub fn parse_decimal(s: &str) -> (r: Option<usize>)
        ensures
            r == parsed_usize(s@),
    {
        let len = s.unicode_len();
        let start: usize = if len > 0 && s.get_char(0) == '+' { 1 } else { 0 };
        let ghost d = unsigned_part(s@);
        proof {
            if start == 1 {
                assert(d =~= s@.subrange(1, len as int));
            } else {
                assert(d =~= s@.subrange(0, len as int));
            }
        }
        if start >= len {
            return None;
        }
        let mut value: usize = 0;
        let mut i: usize = start;
        while i < len
            invariant
                len == s@.len(),
                start <= i <= len,
                start < len,
                d =~= s@.subrange(start as int, len as int),
                d == unsigned_part(s@),
                forall|j: int| 0 <= j < i - start ==> is_digit(#[trigger] d[j]),
                value == digits_value(d.subrange(0, i - start)),
            decreases len - i,
        {
            let c = s.get_char(i);
            if !('0' <= c && c <= '9') {
                proof {
                    assert(!is_digit(d[i - start]));
                    assert(!(forall|j: int| 0 <= j < d.len() ==> is_digit(#[trigger] d[j])));
                    assert(parsed_usize(s@) is None);
                }
                return None;
            }
            let digit = (c as u32 - '0' as u32) as usize;
            proof {
                let e = d.subrange(0, i - start + 1);
                assert(e.drop_last() =~= d.subrange(0, i - start));
                assert(e.last() == c);
            }
            if value > (usize::MAX - digit) / 10 {
                proof {
                    assert forall|j: int| 0 <= j < i - start + 1 implies is_digit(#[trigger] d[j]) by {}
                    assert(digits_value(d.subrange(0, i - start + 1)) > usize::MAX) by (nonlinear_arith)
                        requires
                            digits_value(d.subrange(0, i - start + 1)) == value * 10 + digit,
                            value > (usize::MAX - digit) / 10,
                            digit <= 9,
                    ;
                    if forall|j: int| 0 <= j < d.len() ==> is_digit(#[trigger] d[j]) {
                        lemma_digits_value_grows(d, i - start + 1);
                        assert(digits_value(d) > usize::MAX);
                    }
                    assert(parsed_usize(s@) is None);
                }
                return None;
            }
            value = value * 10 + digit;
            i = i + 1;
        }
        proof {
            assert(d.subrange(0, d.len() as int) =~= d);
        }
        Some(value)
    }

    /// The meaning of a yes-or-no answer, whatever its case and the
    /// whitespace around it.
    pub fn parse_boolean(input: &str) -> (r: Option<bool>)
        ensures
            r == answer_meaning(trimmed_of(lowercase_of(input@))),
    {
        let lower = lowercase(input);
        let word = trim(lower.as_str());
        Self::answer(word)
    }

    /// The meaning of an answer already in lower case and trimmed.
    pub fn answer(word: &str) -> (r: Option<bool>)
        ensures
            r == answer_meaning(word@),
    {
        let word = String::from_str(word);
        if word == String::from_str("y") || word == String::from_str("yes") {
            Some(true)
        } else if word == String::from_str("n") || word == String::from_str("no") {
            Some(false)
        } else {
            None
        }
    }
}

} // verus!
