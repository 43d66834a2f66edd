//! Colon-separated fields of text, and the numbers and letters in them.
use vstd::prelude::*;

use std::char::ParseCharError;
use std::num::ParseIntError;

verus! {

/// The error of `str::parse::<usize>`, carried as it is into the library's
/// own parse errors.
#[verifier::external_type_specification]
#[verifier::external_body]
pub struct ExParseIntError(ParseIntError);

/// The error of `str::parse::<char>`, carried as it is into the library's
/// own parse errors.
#[verifier::external_type_specification]
#[verifier::external_body]
pub struct ExParseCharError(ParseCharError);

/// The pieces of `s` between colons, as `str::split(':')` yields them:
/// always at least one, empty pieces kept.
pub open spec fn fields(s: Seq<char>) -> Seq<Seq<char>>
    decreases s.len(),
{
    if s.len() == 0 {
        seq![Seq::empty()]
    } else {
        let f = fields(s.drop_last());
        if s.last() == ':' {
            f.push(Seq::empty())
        } else {
            f.update(f.len() - 1, f.last().push(s.last()))
        }
    }
}

pub open spec fn is_digit(c: char) -> bool {
    '0' <= c && c <= '9'
}

/// Value of a string of decimal digits.
pub open spec fn digits_value(t: Seq<char>) -> nat
    decreases t.len(),
{
    if t.len() == 0 {
        0
    } else {
        digits_value(t.drop_last()) * 10 + (t.last() as u32 - '0' as u32) as nat
    }
}

/// `t` without a leading `+`.
pub open spec fn unsigned_digits(t: Seq<char>) -> Seq<char> {
    if t.len() > 0 && t[0] == '+' {
        t.drop_first()
    } else {
        t
    }
}

/// `t` is an optional `+` and one or more decimal digits whose value fits
/// in a `usize`.
pub open spec fn is_usize_text(t: Seq<char>) -> bool {
    let d = unsigned_digits(t);
    &&& d.len() > 0
    &&& forall|i: int| 0 <= i < d.len() ==> is_digit(#[trigger] d[i])
    &&& digits_value(d) <= usize::MAX
}

/// Relies on `str::parse::<usize>`: it accepts an optional `+` followed by
/// decimal digits whose value fits, and returns that value.
#[verifier::external_body]
pub(crate) fn parse_usize(s: &str) -> (r: Result<usize, ParseIntError>)
    ensures
        r is Ok <==> is_usize_text(s@),
        r matches Ok(n) ==> n == digits_value(unsigned_digits(s@)),
{
    s.parse::<usize>()
}

/// Relies on `str::parse::<char>`: it accepts exactly one character.
#[verifier::external_body]
pub(crate) fn parse_char(s: &str) -> (r: Result<char, ParseCharError>)
    ensures
        r is Ok <==> s@.len() == 1,
        r matches Ok(c) ==> c == s@[0],
{
    s.parse::<char>()
}

proof fn lemma_fields_nonempty(s: Seq<char>)
    ensures
        fields(s).len() >= 1,
    decreases s.len(),
{
    if s.len() > 0 {
        lemma_fields_nonempty(s.drop_last());
    }
}

/// Splits `s` at each colon.
pub fn split_fields<'a>(s: &'a str) -> (r: Vec<&'a str>)
    ensures
        r.len() == fields(s@).len(),
        r.len() >= 1,
        forall|k: int| 0 <= k < r.len() ==> (#[trigger] r[k])@ == fields(s@)[k],
{
    let n = s.unicode_len();
    let mut bounds: Vec<(usize, usize)> = Vec::new();
    bounds.push((0, 0));
    let mut i: usize = 0;
    assert(s@.take(0) =~= Seq::<char>::empty());
    while i < n
        invariant
            n == s@.len(),
            i <= n,
            bounds.len() == fields(s@.take(i as int)).len(),
            bounds.len() >= 1,
            bounds[bounds.len() - 1].1 == i,
            forall|k: int| 0 <= k < bounds.len() ==> {
                let b = #[trigger] bounds[k];
                &&& b.0 <= b.1 <= i
                &&& s@.subrange(b.0 as int, b.1 as int) == fields(s@.take(i as int))[k]
            },
        decreases n - i,
    {
        let ghost before = fields(s@.take(i as int));
        let ghost prev = bounds@;
        proof {
            lemma_fields_nonempty(s@.take(i as int));
        }
        assert(s@.take(i + 1).drop_last() =~= s@.take(i as int));
        let c = s.get_char(i);
        if c == ':' {
            bounds.push((i + 1, i + 1));
            assert forall|k: int| 0 <= k < bounds.len() implies {
                let b = #[trigger] bounds[k];
                &&& b.0 <= b.1 <= i + 1
                &&& s@.subrange(b.0 as int, b.1 as int) == fields(s@.take(i + 1))[k]
            } by {
                if k < prev.len() {
                    assert(bounds[k] == prev[k]);
                }
            }
        } else {
            let last = bounds.len() - 1;
            let start = bounds[last].0;
            bounds.set(last, (start, i + 1));
            assert forall|k: int| 0 <= k < bounds.len() implies {
                let b = #[trigger] bounds[k];
                &&& b.0 <= b.1 <= i + 1
                &&& s@.subrange(b.0 as int, b.1 as int) == fields(s@.take(i + 1))[k]
            } by {
                if k < last {
                    assert(bounds[k] == prev[k]);
                } else {
                    assert(s@.subrange(start as int, i + 1) =~= s@.subrange(start as int, i as int).push(c));
                }
            }
        }
        i = i + 1;
    }
    assert(s@.take(n as int) =~= s@);
    proof {
        lemma_fields_nonempty(s@);
    }
    let mut r: Vec<&'a str> = Vec::new();
    let mut k: usize = 0;
    while k < bounds.len()
        invariant
            n == s@.len(),
            k <= bounds.len(),
            bounds.len() == fields(s@).len(),
            forall|j: int| 0 <= j < bounds.len() ==> {
                let b = #[trigger] bounds[j];
                &&& b.0 <= b.1 <= n
                &&& s@.subrange(b.0 as int, b.1 as int) == fields(s@)[j]
            },
            r.len() == k,
            forall|j: int| 0 <= j < k ==> (#[trigger] r[j])@ == fields(s@)[j],
        decreases bounds.len() - k,
    {
        let b = bounds[k];
        r.push(s.substring_char(b.0, b.1));
        k = k + 1;
    }
    r
}

/// The character of a decimal digit.
pub open spec fn digit_char(d: nat) -> char {
    ((d + '0' as u32) as u32) as char
}

/// Decimal representation of `n`, without leading zeros.
pub open spec fn decimal_text(n: nat) -> Seq<char>
    decreases n,
{
    if n < 10 {
        seq![digit_char(n)]
    } else {
        decimal_text(n / 10).push(digit_char(n % 10))
    }
}

/// Relies on `u128::to_string` (its `Display`): decimal, without leading
/// zeros.
#[verifier::external_body]
pub(crate) fn decimal(n: u128) -> (r: String)
    ensures
        r@ == decimal_text(n as nat),
{
    n.to_string()
}

/// Relies on `char::to_string`: the one character.
#[verifier::external_body]
pub(crate) fn char_text(c: char) -> (r: String)
    ensures
        r@ == seq![c],
{
    c.to_string()
}

} // verus!
