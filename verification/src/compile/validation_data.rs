//! Test data for the validation of kernels, and the bit patterns it is made of.

use vstd::arithmetic::power::{lemma_pow0, pow};
use vstd::prelude::*;

use crate::float_bits;
use crate::wire;

use super::swizzle;

verus! {

// ---------------------------------------------------------------------------
// The generator
// ---------------------------------------------------------------------------

/// The state after the given one.
pub open spec fn next_state(s: u64) -> u64 {
    ((s * 6364136223846793005 + 1442695040888963407) % 0x1_0000_0000_0000_0000) as u64
}

/// The state after `n` steps.
pub open spec fn nth_state(s: u64, n: nat) -> u64
    decreases n,
{
    if n == 0 {
        s
    } else {
        next_state(nth_state(s, (n - 1) as nat))
    }
}

fn step(s: u64) -> (r: u64)
    ensures
        r == next_state(s),
{
    ((s as u128 * 6364136223846793005 + 1442695040888963407) % 0x1_0000_0000_0000_0000) as u64
}

/// A linear congruential generator.
#[derive(Debug, Clone, Copy, PartialEq, Eq, Structural)]
pub struct Lcg(pub u64);

/// The bits that a number takes.
pub open spec fn bit_length(x: nat) -> nat
    decreases x,
{
    if x == 0 {
        0
    } else {
        1 + bit_length(x / 2)
    }
}

/// The number with `p` leading bits that is nearest, halves to the even one.
pub open spec fn rounded_to(x: nat, p: nat) -> nat {
    let n = bit_length(x);
    if n <= p {
        x
    } else {
        let unit = float_bits::two_to((n - p) as nat) as int;
        (float_bits::nearest_even(x as int, unit) * unit) as nat
    }
}

/// The bits of the single-precision number `z / 2^63`, for a number `z` with at
/// most 24 leading bits.
pub open spec fn single_bits(z: nat) -> u32 {
    let n = bit_length(z);
    if z == 0 {
        0
    } else if n <= 24 {
        ((n + 63) * 0x80_0000 + z * float_bits::two_to((24 - n) as nat) - 0x80_0000) as u32
    } else {
        ((n + 63) * 0x80_0000 + z / float_bits::two_to((n - 24) as nat) - 0x80_0000) as u32
    }
}

/// The single-precision number of a state: `x / 2^63`, rounded first to double
/// and then to single precision.
pub open spec fn unit_single(x: u64) -> u32 {
    single_bits(rounded_to(rounded_to(x as nat, 53), 24))
}

/// A number below a power of two has no more bits.
pub proof fn lemma_bit_length_bound(x: nat, n: nat)
    requires
        x < float_bits::two_to(n),
    ensures
        bit_length(x) <= n,
    decreases n,
{
    if x > 0 {
        if n == 0 {
            assert(float_bits::two_to(0) == 1);
        } else {
            lemma_bit_length_bound(x / 2, (n - 1) as nat);
        }
    }
}

/// A number lies between the powers of two that its bits say.
pub proof fn lemma_bit_length_range(x: nat)
    requires
        x > 0,
    ensures
        bit_length(x) >= 1,
        float_bits::two_to((bit_length(x) - 1) as nat) <= x < float_bits::two_to(bit_length(x)),
    decreases x,
{
    if x > 1 {
        lemma_bit_length_range(x / 2);
        let n = bit_length(x / 2);
        assert(float_bits::two_to(n) == 2 * float_bits::two_to((n - 1) as nat));
        assert(float_bits::two_to(n + 1) == 2 * float_bits::two_to(n));
    } else {
        assert(bit_length(0) == 0);
        assert(bit_length(1) == 1) by {
            assert(1nat / 2 == 0);
        }
        assert(float_bits::two_to(0) == 1);
        assert(float_bits::two_to(1) == 2) by {
            assert(float_bits::two_to(1) == 2 * float_bits::two_to(0));
        }
    }
}

/// 2^64 is a power of two.
proof fn lemma_word_range()
    ensures
        float_bits::two_to(64) == 0x1_0000_0000_0000_0000,
        float_bits::two_to(65) == 0x2_0000_0000_0000_0000,
{
    reveal_with_fuel(float_bits::two_to, 34);
    assert(float_bits::two_to(32) == 0x1_0000_0000);
    float_bits::lemma_two_to_adds(32, 32);
    assert(float_bits::two_to(65) == 2 * float_bits::two_to(64));
}

fn length_of(x: u128) -> (n: u32)
    requires
        x <= 0x1_0000_0000_0000_0000,
    ensures
        n == bit_length(x as nat),
        n <= 65,
{
    proof {
        lemma_word_range();
        lemma_bit_length_bound(x as nat, 65);
    }
    let mut y: u128 = x;
    let mut n: u32 = 0;
    while y > 0
        invariant
            n + bit_length(y as nat) == bit_length(x as nat),
            bit_length(x as nat) <= 65,
        decreases y,
    {
        y = y / 2;
        n = n + 1;
    }
    n
}

fn power_of_two(n: u32) -> (r: u128)
    requires
        n <= 64,
    ensures
        r == float_bits::two_to(n as nat),
{
    proof {
        lemma_word_range();
    }
    let mut r: u128 = 1;
    let mut i: u32 = 0;
    while i < n
        invariant
            i <= n <= 64,
            r == float_bits::two_to(i as nat),
            float_bits::two_to(64) == 0x1_0000_0000_0000_0000,
        decreases n - i,
    {
        proof {
            float_bits::lemma_two_to_monotone(i as nat, 64);
            assert(float_bits::two_to((i + 1) as nat) == 2 * float_bits::two_to(i as nat));
        }
        r = r * 2;
        i = i + 1;
    }
    r
}

/// Rounding keeps within a power of two.
proof fn lemma_rounded_bound(x: nat, p: nat, n: nat)
    requires
        0 < p,
        x <= float_bits::two_to(n),
        bit_length(x) > p,
    ensures
        rounded_to(x, p) <= float_bits::two_to(n),
        0 <= float_bits::nearest_even(x as int, float_bits::two_to((bit_length(x) - p) as nat) as int),
{
    let k = bit_length(x);
    let s = (k - p) as nat;
    let unit = float_bits::two_to(s) as int;
    lemma_bit_length_range(x);
    float_bits::lemma_two_to_monotone(s, s);
    // The next power of two above x, or x itself, is a multiple of the unit.
    let e: nat = if x == float_bits::two_to((k - 1) as nat) {
        (k - 1) as nat
    } else {
        k
    };
    let top = float_bits::two_to(e) as int;
    assert(x <= top);
    assert(s <= e);
    float_bits::lemma_two_to_adds(s, (e - s) as nat);
    let m = float_bits::two_to((e - s) as nat) as int;
    assert(top == unit * m);
    assert(e <= n) by {
        if e > n {
            float_bits::lemma_two_to_monotone(n, (e - 1) as nat);
            if e == k {
                assert(x >= float_bits::two_to((k - 1) as nat));
                assert(x > float_bits::two_to((k - 1) as nat));
            } else {
                assert(float_bits::two_to(e) == 2 * float_bits::two_to((e - 1) as nat));
                float_bits::lemma_two_to_monotone((e - 1) as nat, (e - 1) as nat);
            }
        }
    }
    float_bits::lemma_two_to_monotone(e, n);
    let q = x as int / unit;
    let r = x as int % unit;
    vstd::arithmetic::div_mod::lemma_fundamental_div_mod(x as int, unit);
    let near = float_bits::nearest_even(x as int, unit);
    assert(near <= m) by (nonlinear_arith)
        requires
            x == unit * q + r,
            x <= unit * m,
            0 <= r < unit,
            0 < unit,
            near == q || near == q + 1 && 2 * r >= unit,
    ;
    assert(0 <= q) by (nonlinear_arith)
        requires
            x == unit * q + r,
            0 <= r < unit,
            0 <= x,
    ;
    assert(near * unit <= m * unit) by (nonlinear_arith)
        requires
            near <= m,
            0 < unit,
    ;
    assert(m * unit == unit * m) by (nonlinear_arith);
    assert(0 <= near * unit) by (nonlinear_arith)
        requires
            0 <= near,
            0 < unit,
    ;
}

fn round_to(x: u128, p: u32) -> (r: u128)
    requires
        x <= 0x1_0000_0000_0000_0000,
        0 < p <= 64,
    ensures
        r == rounded_to(x as nat, p as nat),
        r <= 0x1_0000_0000_0000_0000,
{
    let n: u32 = length_of(x);
    if n <= p {
        return x;
    }
    proof {
        lemma_word_range();
        lemma_rounded_bound(x as nat, p as nat, 64);
        float_bits::lemma_two_to_monotone((n - p) as nat, 64);
    }
    let unit: u128 = power_of_two(n - p);
    let q: u128 = x / unit;
    let rem: u128 = x % unit;
    proof {
        vstd::arithmetic::div_mod::lemma_fundamental_div_mod(x as int, unit as int);
        assert(q <= x) by (nonlinear_arith)
            requires
                x == unit * q + rem,
                0 <= rem,
                1 <= unit,
        ;
    }
    let near: u128 = if 2 * rem < unit || 2 * rem == unit && q % 2 == 0 {
        q
    } else {
        q + 1
    };
    assert(near == float_bits::nearest_even(x as int, unit as int));
    near * unit
}

/// Rounding to 24 leading bits leaves a number that fits the fraction.
proof fn lemma_single_range(z: nat)
    requires
        0 < z <= 0x1_0000_0000_0000_0000,
    ensures
        1 <= bit_length(z) <= 65,
        bit_length(z) <= 24 ==> 0x80_0000 <= z * float_bits::two_to((24 - bit_length(z)) as nat)
            < 0x100_0000,
        bit_length(z) > 24 ==> 0x80_0000 <= z / float_bits::two_to((bit_length(z) - 24) as nat)
            < 0x100_0000,
{
    let n = bit_length(z);
    lemma_word_range();
    lemma_bit_length_bound(z, 65);
    lemma_bit_length_range(z);
    reveal_with_fuel(float_bits::two_to, 25);
    assert(float_bits::two_to(23) == 0x80_0000);
    assert(float_bits::two_to(24) == 0x100_0000);
    if n <= 24 {
        let u = float_bits::two_to((24 - n) as nat) as int;
        float_bits::lemma_two_to_adds((n - 1) as nat, (24 - n) as nat);
        float_bits::lemma_two_to_adds(n, (24 - n) as nat);
        let a = float_bits::two_to((n - 1) as nat) as int;
        let b = float_bits::two_to(n) as int;
        float_bits::lemma_two_to_monotone(0, (24 - n) as nat);
        assert(a * u <= z * u < b * u) by (nonlinear_arith)
            requires
                a <= z < b,
                0 < u,
        ;
    } else {
        let u = float_bits::two_to((n - 24) as nat) as int;
        float_bits::lemma_two_to_adds(23, (n - 24) as nat);
        float_bits::lemma_two_to_adds(24, (n - 24) as nat);
        float_bits::lemma_two_to_monotone(0, (n - 24) as nat);
        vstd::arithmetic::div_mod::lemma_fundamental_div_mod(z as int, u);
        let q = z as int / u;
        let r = z as int % u;
        assert(0x80_0000 <= q < 0x100_0000) by (nonlinear_arith)
            requires
                z == u * q + r,
                0 <= r < u,
                0x80_0000 * u <= z < 0x100_0000 * u,
        ;
    }
}

fn single_of(z: u128) -> (r: u32)
    requires
        z <= 0x1_0000_0000_0000_0000,
    ensures
        r == single_bits(z as nat),
{
    if z == 0 {
        return 0;
    }
    let n: u32 = length_of(z);
    proof {
        lemma_single_range(z as nat);
    }
    let fraction: u128 = if n <= 24 {
        proof {
            lemma_word_range();
            float_bits::lemma_two_to_monotone((24 - n) as nat, 64);
        }
        z * power_of_two(24 - n)
    } else {
        proof {
            float_bits::lemma_two_to_monotone((n - 24) as nat, (n - 24) as nat);
        }
        z / power_of_two(n - 24)
    };
    (n + 63) * 0x80_0000 + fraction as u32 - 0x80_0000
}

/// The half-precision bits of a single-precision number: the fraction is cut
/// off, what is too small becomes a zero, and what is too large an infinity or,
/// with a fraction, a NaN.
pub open spec fn cut_half(b: u32) -> u16 {
    let sign: int = if b >= 0x8000_0000 {
        0x8000
    } else {
        0
    };
    let e = b as int % 0x8000_0000 / 0x80_0000 - 112;
    let f = b as int % 0x80_0000 / 0x2000;
    if e <= 0 {
        sign as u16
    } else if e >= 31 {
        (sign + 0x7C00 + if f != 0 {
            0x3FFint
        } else {
            0
        }) as u16
    } else {
        (sign + e * 0x400 + f) as u16
    }
}

/// The half-precision bits of the single-precision number with the given bits.
pub fn f32_to_f16_bits(b: u32) -> (r: u16)
    ensures
        r == cut_half(b),
{
    let sign: u32 = if b >= 0x8000_0000 {
        0x8000
    } else {
        0
    };
    let e: u32 = b % 0x8000_0000 / 0x80_0000;
    let f: u32 = b % 0x80_0000 / 0x2000;
    let r: u32 = if e <= 112 {
        sign
    } else if e >= 143 {
        sign + 0x7C00 + if f != 0 {
            0x3FF
        } else {
            0
        }
    } else {
        sign + (e - 112) * 0x400 + f
    };
    r as u16
}

/// The single-precision bits of a half-precision number, as if every exponent
/// were that of a normal number.
pub open spec fn wide_half(h: u16) -> u32 {
    let sign: int = if h >= 0x8000 {
        0x8000_0000
    } else {
        0
    };
    (sign + (h as int % 0x8000 / 0x400 + 112) * 0x80_0000 + h as int % 0x400 * 0x2000) as u32
}

/// The single-precision bits of the half-precision number with the given bits.
pub fn f16_bits_to_f32(h: u16) -> (r: u32)
    ensures
        r == wide_half(h),
{
    let sign: u32 = if h >= 0x8000 {
        0x8000_0000
    } else {
        0
    };
    let e: u32 = h as u32 % 0x8000 / 0x400;
    sign + (e + 112) * 0x80_0000 + h as u32 % 0x400 * 0x2000
}

/// A half-precision number with a normal exponent comes back unchanged from
/// single precision.
pub proof fn law_normal_half_round_trips(h: u16)
    requires
        0x400 <= h as int % 0x8000 < 0x7C00,
    ensures
        cut_half(wide_half(h)) == h,
{
}

impl Lcg {
    pub fn new(seed: u64) -> (r: Self)
        ensures
            r.0 == seed,
    {
        Lcg(seed)
    }

    /// The next number.
    pub fn next(&mut self) -> (r: u64)
        ensures
            final(self).0 == next_state(old(self).0),
            r == next_state(old(self).0),
    {
        self.0 = step(self.0);
        self.0
    }

    /// The bits of the next single-precision number.
    pub fn next_f32(&mut self) -> (r: u32)
        ensures
            final(self).0 == next_state(old(self).0),
            r == unit_single(next_state(old(self).0)),
    {
        let x: u64 = self.next();
        single_of(round_to(round_to(x as u128, 53), 24))
    }

    /// The bits of the next half-precision number.
    pub fn next_f16(&mut self) -> (r: u16)
        ensures
            final(self).0 == next_state(old(self).0),
            r == cut_half(unit_single(next_state(old(self).0))),
    {
        f32_to_f16_bits(self.next_f32())
    }
}

/// The half-precision numbers that follow a state.
pub open spec fn halves_from(s: u64, n: nat) -> Seq<u16> {
    Seq::new(n, |i: int| cut_half(unit_single(nth_state(s, (i + 1) as nat))))
}

/// The next `n` half-precision numbers.
pub fn next_halves(rng: &mut Lcg, n: usize) -> (r: Vec<u16>)
    ensures
        r@ == halves_from(old(rng).0, n as nat),
        final(rng).0 == nth_state(old(rng).0, n as nat),
{
    let ghost seed = rng.0;
    let mut r: Vec<u16> = Vec::new();
    let mut i: usize = 0;
    while i < n
        invariant
            i <= n,
            rng.0 == nth_state(seed, i as nat),
            r@ == halves_from(seed, i as nat),
        decreases n - i,
    {
        let h: u16 = rng.next_f16();
        r.push(h);
        assert(r@ =~= halves_from(seed, (i + 1) as nat));
        i = i + 1;
    }
    r
}

/// The single-precision numbers that follow a state.
pub open spec fn singles_from(s: u64, n: nat) -> Seq<u32> {
    Seq::new(n, |i: int| unit_single(nth_state(s, (i + 1) as nat)))
}

/// The next `n` single-precision numbers.
pub fn next_singles(rng: &mut Lcg, n: usize) -> (r: Vec<u32>)
    ensures
        r@ == singles_from(old(rng).0, n as nat),
        final(rng).0 == nth_state(old(rng).0, n as nat),
{
    let ghost seed = rng.0;
    let mut r: Vec<u32> = Vec::new();
    let mut i: usize = 0;
    while i < n
        invariant
            i <= n,
            rng.0 == nth_state(seed, i as nat),
            r@ == singles_from(seed, i as nat),
        decreases n - i,
    {
        let x: u32 = rng.next_f32();
        r.push(x);
        assert(r@ =~= singles_from(seed, (i + 1) as nat));
        i = i + 1;
    }
    r
}

/// The ternary digits that follow a state.
pub open spec fn digits_from(s: u64, n: nat) -> Seq<u8> {
    Seq::new(n, |i: int| (nth_state(s, (i + 1) as nat) % 3) as u8)
}

/// The next `n` ternary digits.
pub fn next_digits(rng: &mut Lcg, n: usize) -> (r: Vec<u8>)
    ensures
        r@ == digits_from(old(rng).0, n as nat),
        final(rng).0 == nth_state(old(rng).0, n as nat),
        forall|i: int| 0 <= i < r@.len() ==> #[trigger] r@[i] <= 2,
{
    let ghost seed = rng.0;
    let mut r: Vec<u8> = Vec::new();
    let mut i: usize = 0;
    while i < n
        invariant
            i <= n,
            rng.0 == nth_state(seed, i as nat),
            r@ == digits_from(seed, i as nat),
            forall|j: int| 0 <= j < r@.len() ==> #[trigger] r@[j] <= 2,
        decreases n - i,
    {
        let x: u64 = rng.next();
        r.push((x % 3) as u8);
        assert(r@ =~= digits_from(seed, (i + 1) as nat));
        i = i + 1;
    }
    r
}

/// The positions that a probe with the seed visits.
pub open spec fn probe_positions(seed: u32, n: nat, max_pos: u32) -> Seq<u32> {
    Seq::new(
        n,
        |i: int| (nth_state(seed as u64, (i + 1) as nat) as int / 0x2_0000_0000 % max_pos as int) as u32,
    )
}

/// The positions that a probe with the seed visits, each below `max_pos`.
pub fn probe_sequence(seed: u32, num_positions: usize, max_pos: u32) -> (r: Vec<u32>)
    requires
        max_pos > 0,
    ensures
        r@ == probe_positions(seed, num_positions as nat, max_pos),
        forall|i: int| 0 <= i < r@.len() ==> #[trigger] r@[i] < max_pos,
{
    let mut state: u64 = seed as u64;
    let mut r: Vec<u32> = Vec::new();
    let mut i: usize = 0;
    while i < num_positions
        invariant
            i <= num_positions,
            max_pos > 0,
            state == nth_state(seed as u64, i as nat),
            r@ == probe_positions(seed, i as nat, max_pos),
            forall|j: int| 0 <= j < r@.len() ==> #[trigger] r@[j] < max_pos,
        decreases num_positions - i,
    {
        state = step(state);
        let high: u32 = (state / 0x2_0000_0000) as u32;
        r.push(high % max_pos);
        assert(r@ =~= probe_positions(seed, (i + 1) as nat, max_pos));
        i = i + 1;
    }
    r
}

// ---------------------------------------------------------------------------
// Pages of ternary digits
// ---------------------------------------------------------------------------

/// The digits of a page.
pub const PAGE_DIGITS: usize = 640;

/// The words of a page.
pub const PAGE_WORDS: usize = 32;

/// The number read from ternary digits, the first the least significant.
pub open spec fn low_first(digits: Seq<u8>) -> nat
    decreases digits.len(),
{
    if digits.len() == 0 {
        0
    } else {
        digits[0] as nat + 3 * low_first(digits.drop_first())
    }
}

/// The lesser of two numbers.
pub open spec fn least(a: int, b: int) -> int {
    if a <= b {
        a
    } else {
        b
    }
}

/// The digits in word `w` of a page.
pub open spec fn word_part(digits: Seq<u8>, w: int) -> Seq<u8> {
    digits.subrange(least(20 * w, digits.len() as int), least(20 * w + 20, digits.len() as int))
}

/// Digits in words of twenty; digits past those of a page are left out.
pub open spec fn packed_page(digits: Seq<u8>) -> Seq<u32> {
    Seq::new(32, |w: int| low_first(word_part(digits, w)) as u32)
}

proof fn lemma_low_first_shrinks(digits: Seq<u8>, k: int)
    requires
        0 <= k <= digits.len(),
    ensures
        low_first(digits.skip(k)) <= low_first(digits),
    decreases k,
{
    if k == 0 {
        assert(digits.skip(0) =~= digits);
    } else {
        lemma_low_first_shrinks(digits.drop_first(), k - 1);
        assert(digits.drop_first().skip(k - 1) =~= digits.skip(k));
    }
}

proof fn lemma_low_first_range(digits: Seq<u8>)
    requires
        forall|i: int| 0 <= i < digits.len() ==> #[trigger] digits[i] <= 2,
    ensures
        low_first(digits) < swizzle::three_to(digits.len()),
    decreases digits.len(),
{
    if digits.len() > 0 {
        assert forall|i: int| 0 <= i < digits.drop_first().len() implies #[trigger] digits.drop_first()[i]
            <= 2 by {
            assert(digits.drop_first()[i] == digits[i + 1]);
        }
        lemma_low_first_range(digits.drop_first());
        assert(digits[0] <= 2);
    }
}

fn pack_word(digits: &[u8], start: usize, end: usize) -> (r: u32)
    requires
        start <= end <= digits@.len(),
        low_first(digits@.subrange(start as int, end as int)) <= u32::MAX,
    ensures
        r == low_first(digits@.subrange(start as int, end as int)),
{
    let ghost part = digits@.subrange(start as int, end as int);
    let mut r: u32 = 0;
    let mut i: usize = end;
    assert(part.skip(part.len() as int) =~= Seq::<u8>::empty());
    while i > start
        invariant
            start <= i <= end <= digits@.len(),
            part == digits@.subrange(start as int, end as int),
            low_first(part) <= u32::MAX,
            r == low_first(part.skip(i - start)),
        decreases i - start,
    {
        i = i - 1;
        proof {
            let rest = part.skip(i - start);
            assert(rest.drop_first() =~= part.skip(i + 1 - start));
            assert(rest[0] == digits@[i as int]);
            lemma_low_first_shrinks(part, i - start);
        }
        r = r * 3 + digits[i] as u32;
    }
    assert(part.skip(0) =~= part);
    r
}

/// Packs the digits of a page.
pub fn pack_page(digits: &[u8]) -> (r: Vec<u32>)
    requires
        forall|w: int| 0 <= w < 32 ==> low_first(#[trigger] word_part(digits@, w)) <= u32::MAX,
    ensures
        r@ == packed_page(digits@),
{
    let mut r: Vec<u32> = Vec::new();
    let mut w: usize = 0;
    while w < PAGE_WORDS
        invariant
            w <= 32,
            forall|k: int| 0 <= k < 32 ==> low_first(#[trigger] word_part(digits@, k)) <= u32::MAX,
            r@.len() == w,
            forall|k: int| 0 <= k < w ==> #[trigger] r@[k] == low_first(word_part(digits@, k)),
        decreases 32 - w,
    {
        let n: usize = digits.len();
        let start: usize = if 20 * w <= n {
            20 * w
        } else {
            n
        };
        let end: usize = if 20 * w + 20 <= n {
            20 * w + 20
        } else {
            n
        };
        assert(word_part(digits@, w as int) == digits@.subrange(start as int, end as int));
        r.push(pack_word(digits, start, end));
        w = w + 1;
    }
    assert(r@ =~= packed_page(digits@));
    r
}

/// The bits of the negated number.
pub open spec fn negated(b: u32) -> u32 {
    if b >= 0x8000_0000 {
        (b - 0x8000_0000) as u32
    } else {
        (b + 0x8000_0000) as u32
    }
}

/// The half-precision value of a digit: nothing, the scale, or the scale negated.
pub open spec fn digit_half(digit: int, scale: u32) -> u16 {
    if digit == 1 {
        cut_half(scale)
    } else if digit == 2 {
        cut_half(negated(scale))
    } else {
        cut_half(0)
    }
}

/// The values of a page.
pub open spec fn unpacked_page(packed: Seq<u32>, scale: u32, count: nat) -> Seq<u16> {
    Seq::new(
        count,
        |i: int|
            if i < 640 {
                digit_half(swizzle::trit(packed[i / 20] as nat, (i % 20) as nat) as int, scale)
            } else {
                0
            },
    )
}

fn digit_in(word: u32, k: usize) -> (r: u32)
    ensures
        r == swizzle::trit(word as nat, k as nat),
{
    let mut rem: u32 = word;
    let mut j: usize = 0;
    proof {
        assert(swizzle::three_to(0) == 1);
        assert(word as nat / 1 == word);
    }
    while j < k
        invariant
            j <= k,
            rem == word as nat / swizzle::three_to(j as nat),
        decreases k - j,
    {
        proof {
            swizzle::lemma_three_to_pos(j as nat);
            vstd::arithmetic::div_mod::lemma_div_denominator(
                word as int,
                swizzle::three_to(j as nat) as int,
                3,
            );
            assert(swizzle::three_to((j + 1) as nat) == 3 * swizzle::three_to(j as nat));
        }
        rem = rem / 3;
        j = j + 1;
    }
    rem % 3
}

/// Unpacks the first `count` values of a page. Values past those of a page are
/// zero.
pub fn unpack_page(packed: &[u32], scale: u32, count: usize) -> (r: Vec<u16>)
    requires
        packed@.len() >= 32 || 20 * packed@.len() >= count,
    ensures
        r@ == unpacked_page(packed@, scale, count as nat),
{
    let minus: u32 = if scale >= 0x8000_0000 {
        scale - 0x8000_0000
    } else {
        scale + 0x8000_0000
    };
    let mut r: Vec<u16> = Vec::new();
    let mut i: usize = 0;
    while i < count
        invariant
            i <= count,
            packed@.len() >= 32 || 20 * packed@.len() >= count,
            minus == negated(scale),
            r@ == unpacked_page(packed@, scale, i as nat),
        decreases count - i,
    {
        let h: u16 = if i < PAGE_DIGITS {
            let digit: u32 = digit_in(packed[i / 20], i % 20);
            let value: u32 = if digit == 1 {
                scale
            } else if digit == 2 {
                minus
            } else {
                0
            };
            f32_to_f16_bits(value)
        } else {
            0
        };
        r.push(h);
        assert(r@ =~= unpacked_page(packed@, scale, (i + 1) as nat));
        i = i + 1;
    }
    r
}

proof fn lemma_low_first_trit(digits: Seq<u8>, k: nat)
    requires
        forall|i: int| 0 <= i < digits.len() ==> #[trigger] digits[i] <= 2,
        k < digits.len(),
    ensures
        swizzle::trit(low_first(digits), k) == digits[k as int],
    decreases k,
{
    let rest = digits.drop_first();
    let n = low_first(digits) as int;
    assert(digits[0] <= 2);
    if k == 0 {
        assert(swizzle::three_to(0) == 1);
        assert(n / 1 == n);
    } else {
        assert forall|i: int| 0 <= i < rest.len() implies #[trigger] rest[i] <= 2 by {
            assert(rest[i] == digits[i + 1]);
        }
        lemma_low_first_trit(rest, (k - 1) as nat);
        let p = swizzle::three_to((k - 1) as nat) as int;
        swizzle::lemma_three_to_pos((k - 1) as nat);
        vstd::arithmetic::div_mod::lemma_div_denominator(n, 3, p);
        assert(n / 3 == low_first(rest));
        assert(swizzle::three_to(k) == 3 * p);
        assert(rest[k - 1] == digits[k as int]);
    }
}

/// Ternary digits fill words of the range, and unpacking a packed page gives
/// each digit its value.
pub proof fn law_page_unpacks(digits: Seq<u8>, scale: u32, i: int)
    requires
        forall|j: int| 0 <= j < digits.len() ==> #[trigger] digits[j] <= 2,
        0 <= i < digits.len(),
        i < 640,
    ensures
        low_first(word_part(digits, i / 20)) <= u32::MAX,
        unpacked_page(packed_page(digits), scale, digits.len())[i] == digit_half(
            digits[i] as int,
            scale,
        ),
{
    let part = word_part(digits, i / 20);
    assert forall|j: int| 0 <= j < part.len() implies #[trigger] part[j] <= 2 by {
        assert(part[j] == digits[20 * (i / 20) + j]);
    }
    lemma_word_fits(digits, i / 20);
    lemma_low_first_trit(part, (i % 20) as nat);
    assert(part[i % 20] == digits[i]);
}

/// The digits of a word fit it.
pub proof fn lemma_word_fits(digits: Seq<u8>, w: int)
    requires
        forall|j: int| 0 <= j < digits.len() ==> #[trigger] digits[j] <= 2,
        0 <= w,
    ensures
        low_first(word_part(digits, w)) <= u32::MAX,
{
    let part = word_part(digits, w);
    assert forall|j: int| 0 <= j < part.len() implies #[trigger] part[j] <= 2 by {
        assert(part[j] == digits[least(20 * w, digits.len() as int) + j]);
    }
    lemma_low_first_range(part);
    assert(part.len() <= 20);
    lemma_three_to_grows(part.len(), 20);
    reveal_with_fuel(swizzle::three_to, 21);
    assert(swizzle::three_to(20) == 3486784401);
}

proof fn lemma_three_to_grows(a: nat, b: nat)
    requires
        a <= b,
    ensures
        swizzle::three_to(a) <= swizzle::three_to(b),
    decreases b,
{
    if a < b {
        lemma_three_to_grows(a, (b - 1) as nat);
    }
}

// ---------------------------------------------------------------------------
// Codebooks
// ---------------------------------------------------------------------------

/// Entry `i` of the codebook of row `r`: the weight in that column, and zero
/// past the end of the weights.
pub open spec fn codebook_entry(weights: Seq<u16>, in_dim: int, r: int, i: int) -> u16 {
    let column = if in_dim == 0 {
        0
    } else {
        i
    };
    if r * in_dim + column < weights.len() {
        weights[r * in_dim + column]
    } else {
        0
    }
}

/// The codebooks of a matrix: sixteen entries for each row.
pub open spec fn codebooks(weights: Seq<u16>, out_dim: nat, in_dim: int) -> Seq<u16> {
    Seq::new(16 * out_dim, |k: int| codebook_entry(weights, in_dim, k / 16, k % 16))
}

/// The codebooks of a matrix.
pub fn build_codebooks(weights: &[u16], out_dim: usize, in_dim: usize) -> (r: Vec<u16>)
    requires
        16 * out_dim <= usize::MAX,
        out_dim * in_dim + 16 <= usize::MAX,
    ensures
        r@ == codebooks(weights@, out_dim as nat, in_dim as int),
{
    let mut r: Vec<u16> = Vec::new();
    let total: usize = 16 * out_dim;
    let mut k: usize = 0;
    while k < total
        invariant
            k <= total,
            total == 16 * out_dim,
            out_dim * in_dim + 16 <= usize::MAX,
            r@ == codebooks(weights@, out_dim as nat, in_dim as int).take(k as int),
        decreases total - k,
    {
        let row: usize = k / 16;
        let column: usize = if in_dim == 0 {
            0
        } else {
            k % 16
        };
        proof {
            assert(0 <= row * in_dim <= out_dim * in_dim) by (nonlinear_arith)
                requires
                    0 <= row < out_dim,
                    0 <= in_dim,
            ;
        }
        let at: usize = row * in_dim + column;
        let entry: u16 = if at < weights.len() {
            weights[at]
        } else {
            0
        };
        r.push(entry);
        proof {
            let all = codebooks(weights@, out_dim as nat, in_dim as int);
            assert(all[k as int] == entry);
            assert(r@ =~= all.take(k + 1));
        }
        k = k + 1;
    }
    assert(r@ =~= codebooks(weights@, out_dim as nat, in_dim as int));
    r
}

/// The indices of column pair `c`: the entries of the two columns in turn,
/// sixteen before they repeat.
pub open spec fn index_pair(c: int) -> u8 {
    (2 * c % 16 + (2 * c + 1) % 16 * 16) as u8
}

/// The indices of a matrix with an even number of columns, two to a byte.
pub open spec fn index_bytes(out_dim: int, in_dim: int) -> Seq<u8> {
    Seq::new((out_dim * in_dim / 2) as nat, |k: int| index_pair(k % (in_dim / 2)))
}

/// The indices of a matrix with an even number of columns.
pub fn build_indices(out_dim: usize, in_dim: usize) -> (r: Vec<u8>)
    requires
        out_dim * in_dim <= usize::MAX,
        in_dim % 2 == 0,
    ensures
        r@ == index_bytes(out_dim as int, in_dim as int),
{
    let half: usize = in_dim / 2;
    let total: usize = out_dim * in_dim / 2;
    let mut r: Vec<u8> = Vec::new();
    let mut k: usize = 0;
    while k < total
        invariant
            k <= total,
            total == out_dim * in_dim / 2,
            half == in_dim / 2,
            in_dim % 2 == 0,
            r@ == index_bytes(out_dim as int, in_dim as int).take(k as int),
        decreases total - k,
    {
        proof {
            assert(in_dim > 1) by (nonlinear_arith)
                requires
                    0 < out_dim * in_dim / 2,
                    0 <= out_dim,
                    in_dim >= 0,
                    in_dim % 2 == 0,
            ;
        }
        let c: usize = k % half;
        let low: usize = c % 8 * 2;
        let pair: u8 = (low + (low + 1) * 16) as u8;
        proof {
            assert(2 * c % 16 == low);
            assert((2 * c + 1) % 16 == low + 1);
        }
        r.push(pair);
        proof {
            let all = index_bytes(out_dim as int, in_dim as int);
            assert(all[k as int] == pair);
            assert(r@ =~= all.take(k + 1));
        }
        k = k + 1;
    }
    assert(r@ =~= index_bytes(out_dim as int, in_dim as int));
    r
}

// ---------------------------------------------------------------------------
// Sidecars
// ---------------------------------------------------------------------------

/// The header of a span of outliers.
#[derive(Debug, Clone, Copy, PartialEq, Eq, Structural)]
pub struct PageSidecarHeader {
    pub start_index: u32,
    pub count: u16,
    pub encoding: u16,
    /// The bits of a single-precision number.
    pub residual_scale: u32,
    pub flags: u32,
}

/// A header as bytes.
pub open spec fn header_bytes(h: PageSidecarHeader) -> Seq<u8> {
    wire::le_bytes(h.start_index as nat, 4) + wire::le_bytes(h.count as nat, 2) + wire::le_bytes(
        h.encoding as nat,
        2,
    ) + wire::le_bytes(h.residual_scale as nat, 4) + wire::le_bytes(h.flags as nat, 4)
}

/// A span of outliers: where it begins, how many there are, and the bits of
/// their scale.
#[derive(Debug, Clone, Copy, PartialEq, Eq, Structural)]
pub struct SidecarSpan {
    pub start_index: u32,
    pub count: u16,
    pub residual_scale: u32,
}

/// Half-precision numbers as bytes.
pub open spec fn half_bytes(s: Seq<u16>) -> Seq<u8>
    decreases s.len(),
{
    if s.len() == 0 {
        Seq::empty()
    } else {
        half_bytes(s.drop_last()) + wire::le_bytes(s.last() as nat, 2)
    }
}

/// Spans of outliers, as they are laid out.
#[derive(Debug)]
pub struct Sidecar {
    pub bytes: Vec<u8>,
    /// Where the spans begin.
    pub offsets: Vec<u32>,
    /// The outliers of all spans, one span after the other.
    pub values: Vec<u16>,
}

#[verifier::ext_equal]
pub ghost struct SidecarView {
    pub bytes: Seq<u8>,
    pub offsets: Seq<u32>,
    pub values: Seq<u16>,
}

impl Sidecar {
    pub open spec fn view(&self) -> SidecarView {
        SidecarView { bytes: self.bytes@, offsets: self.offsets@, values: self.values@ }
    }
}

/// The outliers of spans together.
pub open spec fn span_total(spans: Seq<SidecarSpan>) -> nat
    decreases spans.len(),
{
    if spans.len() == 0 {
        0
    } else {
        span_total(spans.drop_last()) + spans.last().count as nat
    }
}

/// Spans with the outliers that follow a state: each span is its header and its
/// outliers, and its offset is where its header begins.
pub open spec fn laid_out(s: u64, spans: Seq<SidecarSpan>) -> SidecarView
    decreases spans.len(),
{
    if spans.len() == 0 {
        SidecarView { bytes: Seq::empty(), offsets: Seq::empty(), values: Seq::empty() }
    } else {
        let before = laid_out(s, spans.drop_last());
        let span = spans.last();
        let values = halves_from(
            nth_state(s, span_total(spans.drop_last())),
            span.count as nat,
        );
        SidecarView {
            bytes: before.bytes + header_bytes(span_header(span)) + half_bytes(values),
            offsets: before.offsets.push(before.bytes.len() as u32),
            values: before.values + values,
        }
    }
}

pub open spec fn span_header(span: SidecarSpan) -> PageSidecarHeader {
    PageSidecarHeader {
        start_index: span.start_index,
        count: span.count,
        encoding: 0,
        residual_scale: span.residual_scale,
        flags: 0,
    }
}

proof fn lemma_nth_state_adds(s: u64, a: nat, b: nat)
    ensures
        nth_state(s, a + b) == nth_state(nth_state(s, a), b),
    decreases b,
{
    if b > 0 {
        lemma_nth_state_adds(s, a, (b - 1) as nat);
    }
}

proof fn lemma_half_bytes_len(s: Seq<u16>)
    ensures
        half_bytes(s).len() == 2 * s.len(),
    decreases s.len(),
{
    if s.len() > 0 {
        lemma_half_bytes_len(s.drop_last());
        wire::lemma_le_bytes_len(s.last() as nat, 2);
    }
}

proof fn lemma_header_len(h: PageSidecarHeader)
    ensures
        header_bytes(h).len() == 16,
{
    wire::lemma_le_bytes_len(h.start_index as nat, 4);
    wire::lemma_le_bytes_len(h.count as nat, 2);
    wire::lemma_le_bytes_len(h.encoding as nat, 2);
    wire::lemma_le_bytes_len(h.residual_scale as nat, 4);
    wire::lemma_le_bytes_len(h.flags as nat, 4);
}

proof fn lemma_laid_out_len(s: u64, spans: Seq<SidecarSpan>)
    ensures
        laid_out(s, spans).bytes.len() == 16 * spans.len() + 2 * span_total(spans),
        laid_out(s, spans).offsets.len() == spans.len(),
        laid_out(s, spans).values.len() == span_total(spans),
    decreases spans.len(),
{
    if spans.len() > 0 {
        lemma_laid_out_len(s, spans.drop_last());
        let span = spans.last();
        lemma_header_len(span_header(span));
        lemma_half_bytes_len(
            halves_from(nth_state(s, span_total(spans.drop_last())), span.count as nat),
        );
    }
}

proof fn lemma_span_total_grows(spans: Seq<SidecarSpan>, k: int)
    requires
        0 <= k <= spans.len(),
    ensures
        span_total(spans.take(k)) <= span_total(spans),
    decreases spans.len(),
{
    if k < spans.len() {
        lemma_span_total_grows(spans.drop_last(), k);
        assert(spans.drop_last().take(k) =~= spans.take(k));
    } else {
        assert(spans.take(k) =~= spans);
    }
}

fn push_header(out: &mut Vec<u8>, h: PageSidecarHeader)
    ensures
        final(out)@ == old(out)@ + header_bytes(h),
{
    let ghost before = out@;
    wire::push_le(out, h.start_index as u64, 4);
    wire::push_le(out, h.count as u64, 2);
    wire::push_le(out, h.encoding as u64, 2);
    wire::push_le(out, h.residual_scale as u64, 4);
    wire::push_le(out, h.flags as u64, 4);
    assert(out@ =~= before + header_bytes(h));
}

fn push_halves(out: &mut Vec<u8>, values: &Vec<u16>)
    ensures
        final(out)@ == old(out)@ + half_bytes(values@),
{
    let ghost before = out@;
    let mut i: usize = 0;
    assert(before + half_bytes(values@.take(0)) =~= before);
    while i < values.len()
        invariant
            i <= values@.len(),
            out@ == before + half_bytes(values@.take(i as int)),
        decreases values@.len() - i,
    {
        wire::push_le(out, values[i] as u64, 2);
        proof {
            assert(values@.take(i + 1).drop_last() =~= values@.take(i as int));
            assert(out@ =~= before + half_bytes(values@.take(i + 1)));
        }
        i = i + 1;
    }
    assert(values@.take(values@.len() as int) =~= values@);
}

/// Lays out spans with outliers from the generator.
pub fn build_sidecar(rng: &mut Lcg, spans: &[SidecarSpan]) -> (r: Sidecar)
    requires
        16 * spans@.len() + 2 * span_total(spans@) <= u32::MAX,
    ensures
        r@ == laid_out(old(rng).0, spans@),
        final(rng).0 == nth_state(old(rng).0, span_total(spans@)),
{
    let ghost seed = rng.0;
    let mut r: Sidecar = Sidecar { bytes: Vec::new(), offsets: Vec::new(), values: Vec::new() };
    let mut i: usize = 0;
    proof {
        assert(spans@.take(0) =~= Seq::<SidecarSpan>::empty());
        assert(r@ =~= laid_out(seed, spans@.take(0)));
    }
    while i < spans.len()
        invariant
            i <= spans@.len(),
            16 * spans@.len() + 2 * span_total(spans@) <= u32::MAX,
            rng.0 == nth_state(seed, span_total(spans@.take(i as int))),
            r@ == laid_out(seed, spans@.take(i as int)),
        decreases spans@.len() - i,
    {
        let span: SidecarSpan = spans[i];
        let ghost done = spans@.take(i as int);
        let ghost next = spans@.take(i + 1);
        let ghost before = r@;
        proof {
            assert(next.drop_last() =~= done);
            lemma_laid_out_len(seed, done);
            lemma_span_total_grows(spans@, i as int);
            lemma_nth_state_adds(seed, span_total(done), span.count as nat);
        }
        r.offsets.push(r.bytes.len() as u32);
        push_header(
            &mut r.bytes,
            PageSidecarHeader {
                start_index: span.start_index,
                count: span.count,
                encoding: 0,
                residual_scale: span.residual_scale,
                flags: 0,
            },
        );
        let values: Vec<u16> = next_halves(rng, span.count as usize);
        push_halves(&mut r.bytes, &values);
        r.values.extend_from_slice(values.as_slice());
        assert(r@ =~= laid_out(seed, next));
        i = i + 1;
    }
    assert(spans@.take(spans@.len() as int) =~= spans@);
    r
}

/// The header of each span is found at its offset.
pub proof fn law_offsets_find_headers(s: u64, spans: Seq<SidecarSpan>, i: int)
    requires
        0 <= i < spans.len(),
        16 * spans.len() + 2 * span_total(spans) <= u32::MAX,
    ensures
        ({
            let l = laid_out(s, spans);
            &&& l.offsets[i] + 16 <= l.bytes.len()
            &&& l.bytes.subrange(l.offsets[i] as int, l.offsets[i] + 16) == header_bytes(
                span_header(spans[i]),
            )
        }),
    decreases spans.len(),
{
    let l = laid_out(s, spans);
    let before = laid_out(s, spans.drop_last());
    lemma_laid_out_len(s, spans);
    lemma_laid_out_len(s, spans.drop_last());
    if i == spans.len() - 1 {
        lemma_header_len(span_header(spans[i]));
        assert(l.offsets[i] == before.bytes.len());
        assert(l.bytes.subrange(l.offsets[i] as int, l.offsets[i] + 16) =~= header_bytes(
            span_header(spans[i]),
        ));
    } else {
        law_offsets_find_headers(s, spans.drop_last(), i);
        assert(l.offsets[i] == before.offsets[i]);
        assert(l.bytes.subrange(l.offsets[i] as int, l.offsets[i] + 16) =~= before.bytes.subrange(
            l.offsets[i] as int,
            l.offsets[i] + 16,
        ));
    }
}

/// Cutting to half precision keeps the sign, and of a value in the normal half range the
/// exponent and the upper ten bits of the fraction; below it there is zero.
pub proof fn law_cut_keeps_the_upper_bits(b: u32, r: u16)
    requires
        call_ensures(f32_to_f16_bits, (b,), r),
    ensures
        (r >= 0x8000) == (b >= 0x8000_0000),
        ({
            let bits = b % 0x8000_0000;
            let low = r % 0x8000;
            &&& 0x3880_0000 <= bits < 0x4780_0000 ==> low * 0x2000 <= bits - 0x3800_0000 < low
                * 0x2000 + 0x2000
            &&& bits < 0x3880_0000 ==> low == 0
            &&& bits >= 0x4780_0000 ==> low >= 0x7C00
        }),
{
    let bits = b as int % 0x8000_0000;
    let e = bits / 0x80_0000;
    let f = b as int % 0x80_0000;
    assert(bits == e * 0x80_0000 + f);
}

/// Widening puts the exponent and the fraction of a half-precision value in place, with
/// the exponent counted from 127 in place of 15.
pub proof fn law_widening_shifts_the_bits(h: u16, r: u32)
    requires
        call_ensures(f16_bits_to_f32, (h,), r),
    ensures
        (r >= 0x8000_0000) == (h >= 0x8000),
        r % 0x8000_0000 == (h % 0x8000) * 0x2000 + 0x3800_0000,
{
    let low = h as int % 0x8000;
    assert(low == low / 0x400 * 0x400 + h as int % 0x400);
}

/// Every value of a page is the scale where its digit is 1, the scale with the other sign
/// where it is 2, and zero where it is 0, in half precision; twenty digits stand in a
/// word, the first the lowest.
pub proof fn law_page_values_go_by_digit(
    packed: &[u32],
    scale: u32,
    count: usize,
    r: Vec<u16>,
    plus: u16,
    minus: u16,
    other: u32,
    i: int,
)
    requires
        call_ensures(unpack_page, (packed, scale, count), r),
        call_ensures(f32_to_f16_bits, (scale,), plus),
        call_ensures(f32_to_f16_bits, (other,), minus),
        other == (if scale >= 0x8000_0000 {
            scale - 0x8000_0000
        } else {
            scale + 0x8000_0000
        }),
        0 <= i < count,
        i < 640,
    ensures
        r@.len() == count,
        ({
            let d = packed@[i / 20] as int / pow(3, (i % 20) as nat) % 3;
            r@[i] == (if d == 1 {
                plus
            } else if d == 2 {
                minus
            } else {
                0
            })
        }),
{
    lemma_three_to_is_pow((i % 20) as nat);
}

proof fn lemma_three_to_is_pow(n: nat)
    ensures
        swizzle::three_to(n) == pow(3, n),
    decreases n,
{
    if n == 0 {
        lemma_pow0(3);
    } else {
        lemma_three_to_is_pow((n - 1) as nat);
        reveal(pow);
    }
}

/// A codebook of a row is the first sixteen weights of the row, and the indices of a row
/// count up through it again and again, two to a byte, the first in the lower half.
pub proof fn law_codebooks_start_the_rows(
    weights: &[u16],
    out_dim: usize,
    in_dim: usize,
    books: Vec<u16>,
    row: int,
    i: int,
)
    requires
        call_ensures(build_codebooks, (weights, out_dim, in_dim), books),
        0 <= row < out_dim,
        0 <= i < 16,
        in_dim > 0,
        row * in_dim + i < weights@.len(),
    ensures
        books@.len() == 16 * out_dim,
        books@[16 * row + i] == weights@[row * in_dim + i],
{
    let k = 16 * row + i;
    assert(k / 16 == row && k % 16 == i);
}

/// The indices of a row count up from zero and start over after sixteen; two stand in a
/// byte, the first in its low half.
pub proof fn law_indices_count_up(out_dim: usize, in_dim: usize, r: Vec<u8>, row: int, col: int)
    requires
        call_ensures(build_indices, (out_dim, in_dim), r),
        0 <= row < out_dim,
        0 <= col < in_dim,
        in_dim % 2 == 0,
    ensures
        r@.len() == out_dim * in_dim / 2,
        0 <= row * (in_dim / 2) + col / 2 < r@.len(),
        ({
            let byte = r@[row * (in_dim / 2) + col / 2] as int;
            col % 16 == (if col % 2 == 0 {
                byte % 16
            } else {
                byte / 16
            })
        }),
{
    let half = in_dim as int / 2;
    let n = out_dim as int;
    let c = col / 2;
    assert(in_dim == 2 * half);
    assert(n * in_dim == 2 * (n * half)) by (nonlinear_arith)
        requires
            in_dim == 2 * half,
    ;
    assert(0 <= row * half + c < n * half) by (nonlinear_arith)
        requires
            0 <= row < n,
            0 <= c < half,
    ;
    assert((row * half + c) % half == c) by {
        vstd::arithmetic::div_mod::lemma_fundamental_div_mod_converse(row * half + c, half, row, c);
    }
    assert(r@[row * half + c] == index_pair(c));
}

/// The states of the generator follow from one another by one multiplication and one
/// addition, in sixty-four bits; each gives a digit by its remainder and a position by its
/// upper thirty-one bits.
pub proof fn law_generator_goes_step_by_step(
    s: u64,
    seed: u32,
    n: usize,
    max_pos: u32,
    r: Vec<u32>,
    i: int,
)
    requires
        call_ensures(probe_sequence, (seed, n, max_pos), r),
        0 <= i < n,
        max_pos > 0,
    ensures
        nth_state(s, 0) == s,
        nth_state(s, (i + 1) as nat) == (nth_state(s, i as nat) * 6364136223846793005
            + 1442695040888963407) % 0x1_0000_0000_0000_0000,
        digits_from(s, n as nat).len() == n,
        digits_from(s, n as nat)[i] == nth_state(s, (i + 1) as nat) % 3,
        r@.len() == n,
        r@[i] == nth_state(seed as u64, (i + 1) as nat) as int / 0x2_0000_0000 % max_pos as int,
{
    assert(nth_state(s, (i + 1) as nat) == next_state(nth_state(s, i as nat)));
}

} // verus!
