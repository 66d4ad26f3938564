//! Decimal numerals read as numbers.

use vstd::prelude::*;

use crate::compile::differential;
use crate::text;

verus! {

/// Whether a character is a decimal digit.
pub open spec fn is_digit(c: char) -> bool {
    '0' <= c <= '9'
}

/// The number that a string of digits stands for.
pub open spec fn digits_value(s: Seq<char>) -> nat
    decreases s.len(),
{
    if s.len() == 0 {
        0
    } else {
        digits_value(s.drop_last()) * 10 + (s.last() as nat - '0' as nat) as nat
    }
}

/// The number that a numeral stands for: digits, after a plus sign or not, of a
/// number up to `max`.
pub open spec fn numeral_value(s: Seq<char>, max: nat) -> Option<nat> {
    let d = without_plus(s);
    if is_in_range(d, max) {
        Some(digits_value(d))
    } else {
        None
    }
}

/// A numeral without its plus sign, where it has one.
pub open spec fn without_plus(s: Seq<char>) -> Seq<char> {
    if s.len() > 0 && s[0] == '+' {
        s.drop_first()
    } else {
        s
    }
}

/// Whether these are the digits of a number up to `max`.
pub open spec fn is_in_range(d: Seq<char>, max: nat) -> bool {
    &&& d.len() > 0
    &&& forall|i: int| 0 <= i < d.len() ==> is_digit(#[trigger] d[i])
    &&& digits_value(d) <= max
}

proof fn lemma_digits_grow(s: Seq<char>, k: int)
    requires
        0 <= k <= s.len(),
        forall|i: int| 0 <= i < s.len() ==> is_digit(#[trigger] s[i]),
    ensures
        digits_value(s.take(k)) <= digits_value(s),
    decreases s.len() - k,
{
    if k < s.len() {
        assert(s.take(k + 1).drop_last() =~= s.take(k));
        lemma_digits_grow(s, k + 1);
    } else {
        assert(s.take(k) =~= s);
    }
}

fn parse_digits(v: &Vec<char>, start: usize, max: u64) -> (r: Option<u64>)
    requires
        start <= v.len(),
    ensures
        match r {
            Some(n) => is_in_range(v@.skip(start as int), max as nat) && n == digits_value(
                v@.skip(start as int),
            ),
            None => !is_in_range(v@.skip(start as int), max as nat),
        },
{
    let ghost d = v@.skip(start as int);
    if start == v.len() {
        return None;
    }
    let mut check: usize = start;
    while check < v.len()
        invariant
            start <= check <= v@.len(),
            d == v@.skip(start as int),
            forall|i: int| 0 <= i < check - start ==> is_digit(#[trigger] d[i]),
        decreases v@.len() - check,
    {
        let c: char = v[check];
        assert(d[check - start] == c);
        if c < '0' || c > '9' {
            return None;
        }
        check = check + 1;
    }
    let mut n: u64 = 0;
    let mut i: usize = start;
    assert(d.take(0) =~= Seq::<char>::empty());
    while i < v.len()
        invariant
            start <= i <= v@.len(),
            d == v@.skip(start as int),
            d.len() == v@.len() - start,
            forall|j: int| 0 <= j < d.len() ==> is_digit(#[trigger] d[j]),
            n == digits_value(d.take(i - start)),
            n <= max,
        decreases v@.len() - i,
    {
        let c: char = v[i];
        proof {
            assert(d.take(i - start + 1).drop_last() =~= d.take(i - start));
            assert(d[i - start] == c);
            lemma_digits_grow(d, i - start + 1);
        }
        let x: u64 = (c as u32 - '0' as u32) as u64;
        if x > max || n > (max - x) / 10 {
            return None;
        }
        n = n * 10 + x;
        i = i + 1;
    }
    assert(d.take(d.len() as int) =~= d);
    Some(n)
}

/// The number that a numeral stands for, if it is one of a number up to `max`.
pub fn parse_numeral(s: &str, max: u64) -> (r: Option<u64>)
    ensures
        match r {
            Some(n) => numeral_value(s@, max as nat) == Some(n as nat),
            None => numeral_value(s@, max as nat) is None,
        },
{
    let v: Vec<char> = text::chars_of(s);
    let start: usize = if v.len() > 0 && v[0] == '+' {
        1
    } else {
        0
    };
    proof {
        assert(v@.skip(0) =~= v@);
        assert(v@.len() > 0 ==> v@.skip(1) =~= v@.drop_first());
    }
    parse_digits(&v, start, max)
}

/// The decimal form of a number reads back as the number, with a plus sign before it or
/// not; of a number beyond the limit it reads as none.
pub proof fn law_decimal_reads_back(n: nat, s: &str, max: u64, r: Option<u64>)
    requires
        s@ == text::decimal(n) || s@ == seq!['+'] + text::decimal(n),
        call_ensures(parse_numeral, (s, max), r),
    ensures
        n <= max ==> r == Some(n as u64),
        n > max ==> r is None,
{
    differential::lemma_decimal_value(n);
    let d = text::decimal(n);
    if s@ != d {
        assert(s@.drop_first() =~= d);
    } else {
        assert(is_digit(d[0]));
    }
}

} // verus!
