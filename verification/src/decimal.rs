//! Natural numbers in decimal notation: the digits of a number and the number
//! that a run of digits denotes.

use vstd::prelude::*;

verus! {

/// Whether `c` is one of the ten digits `0` to `9`.
pub open spec fn is_digit(c: char) -> bool {
    '0' <= c <= '9'
}

/// The number that the digit `c` denotes.
pub open spec fn digit_value(c: char) -> nat
    recommends
        is_digit(c),
{
    (c as nat - '0' as nat) as nat
}

/// The digit that denotes `d`.
pub open spec fn digit_char(d: nat) -> char
    recommends
        d < 10,
{
    ('0' as nat + d) as char
}

/// Whether `s` is a decimal numeral: one digit or more, and nothing else.
pub open spec fn is_decimal(s: Seq<char>) -> bool {
    s.len() > 0 && forall|i: int| 0 <= i < s.len() ==> is_digit(#[trigger] s[i])
}

/// The number that the digits of `s` denote, the first digit weighing most.
pub open spec fn decimal_value(s: Seq<char>) -> nat
    decreases s.len(),
{
    if s.len() == 0 {
        0
    } else {
        decimal_value(s.drop_last()) * 10 + digit_value(s.last())
    }
}

/// The decimal numeral of `n`, without leading zeros.
pub open spec fn decimal_digits(n: nat) -> Seq<char>
    decreases n,
{
    if n < 10 {
        seq![digit_char(n)]
    } else {
        decimal_digits(n / 10).push(digit_char(n % 10))
    }
}

/// The numeral of a number is a decimal numeral, and denotes that number.
pub proof fn lemma_decimal_round_trip(n: nat)
    ensures
        is_decimal(decimal_digits(n)),
        decimal_value(decimal_digits(n)) == n,
    decreases n,
{
    let s = decimal_digits(n);
    if n < 10 {
        assert(s.drop_last() == Seq::<char>::empty());
        assert(decimal_value(s.drop_last()) == 0);
    } else {
        lemma_decimal_round_trip(n / 10);
        assert(s.drop_last() == decimal_digits(n / 10));
    }
}

/// A leading part of a numeral denotes no more than the whole.
pub proof fn lemma_decimal_value_of_prefix(s: Seq<char>, k: int)
    requires
        0 <= k <= s.len(),
    ensures
        decimal_value(s.take(k)) <= decimal_value(s),
    decreases s.len(),
{
    if k == s.len() {
        assert(s.take(k) == s);
    } else {
        lemma_decimal_value_of_prefix(s.drop_last(), k);
        assert(s.drop_last().take(k) == s.take(k));
    }
}

/// Reads `s` as a decimal numeral. The result is the number it denotes, or
/// `None` where `s` is no numeral or the number does not fit in a `usize`.
pub fn parse_decimal(s: &[char]) -> (r: Option<usize>)
    ensures
        r == (if is_decimal(s@) && decimal_value(s@) <= usize::MAX {
            Some(decimal_value(s@) as usize)
        } else {
            None
        }),
{
    if s.len() == 0 {
        return None;
    }
    let mut value: usize = 0;
    let mut i: usize = 0;
    while i < s.len()
        invariant
            i <= s.len(),
            forall|j: int| 0 <= j < i ==> is_digit(#[trigger] s@[j]),
            value == decimal_value(s@.take(i as int)),
        decreases s.len() - i,
    {
        let c = s[i];
        if !('0' <= c && c <= '9') {
            return None;
        }
        let d: usize = (c as u32 - '0' as u32) as usize;
        proof {
            assert(s@.take(i + 1).drop_last() == s@.take(i as int));
            lemma_decimal_value_of_prefix(s@, i + 1);
        }
        let shifted = match value.checked_mul(10) {
            Some(v) => v,
            None => { return None; },
        };
        value = match shifted.checked_add(d) {
            Some(v) => v,
            None => { return None; },
        };
        i += 1;
    }
    assert(s@.take(i as int) == s@);
    Some(value)
}

/// Writes the decimal numeral of `n` at the end of `out`.
pub fn push_decimal(out: &mut String, n: usize)
    ensures
        final(out)@ == old(out)@ + decimal_digits(n as nat),
    decreases n,
{
    if n >= 10 {
        push_decimal(out, n / 10);
    }
    let d: u8 = (n % 10) as u8;
    out.push(('0' as u8 + d) as char);
}

} // verus!
