//! IEEE-754 values by their bit patterns.
//!
//! A single-precision value is a `u32`, a half-precision one a `u16`, a
//! bfloat16 one the upper half of a `u32`.  Magnitudes are exact integers: the
//! unit is 2^-149, the smallest positive single-precision value, so every
//! finite value is a whole number of units.

use vstd::arithmetic::power2::{lemma2_to64, lemma_pow2_unfold, pow2};
use vstd::prelude::*;

use crate::wire;

verus! {

/// Two to the power `n`.
pub open spec fn two_to(n: nat) -> nat
    decreases n,
{
    if n == 0 {
        1
    } else {
        2 * two_to((n - 1) as nat)
    }
}

/// The bits without the sign bit.
pub open spec fn abs_bits(b: u32) -> int {
    b as int % 0x8000_0000
}

/// Whether the sign bit is set.
pub open spec fn is_negative(b: u32) -> bool {
    b >= 0x8000_0000
}

/// The biased exponent of the value with the given unsigned bits.
pub open spec fn exponent_of(bits: int) -> int {
    bits / 0x80_0000
}

/// The stored fraction of the value with the given unsigned bits.
pub open spec fn fraction_of(bits: int) -> int {
    bits % 0x80_0000
}

pub open spec fn is_nan(b: u32) -> bool {
    abs_bits(b) > 0x7F80_0000
}

pub open spec fn is_infinite(b: u32) -> bool {
    abs_bits(b) == 0x7F80_0000
}

/// The magnitude with the given unsigned bits, in units of 2^-149.
pub open spec fn magnitude(bits: int) -> int {
    if exponent_of(bits) == 0 {
        fraction_of(bits)
    } else {
        (0x80_0000 + fraction_of(bits)) * two_to((exponent_of(bits) - 1) as nat)
    }
}

pub proof fn lemma_two_to_monotone(a: nat, b: nat)
    requires
        a <= b,
    ensures
        0 < two_to(a) <= two_to(b),
    decreases b,
{
    if b > 0 {
        if a < b {
            lemma_two_to_monotone(a, (b - 1) as nat);
        } else {
            lemma_two_to_monotone((a - 1) as nat, (a - 1) as nat);
        }
    }
}

/// Some powers of two as numbers.
pub proof fn lemma_powers()
    ensures
        two_to(13) == 0x2000,
        two_to(24) == 0x100_0000,
        two_to(25) == 0x200_0000,
        two_to(48) == 0x1_0000_0000_0000,
{
    assert(two_to(13) == 0x2000 && two_to(24) == 0x100_0000) by {
        reveal_with_fuel(two_to, 25);
    }
    lemma_two_to_adds(24, 24);
}

pub proof fn lemma_two_to_adds(a: nat, b: nat)
    ensures
        two_to(a + b) == two_to(a) * two_to(b),
    decreases b,
{
    if b == 0 {
        assert(two_to(a) * 1 == two_to(a));
    } else {
        lemma_two_to_adds(a, (b - 1) as nat);
        let p = two_to(a);
        let q = two_to((b - 1) as nat);
        assert(2 * (p * q) == p * (2 * q)) by (nonlinear_arith);
        assert(two_to(a + b) == 2 * two_to((a + b - 1) as nat));
    }
}

/// Larger unsigned bits mean a larger magnitude.
pub proof fn lemma_magnitude_increases(a: int, b: int)
    requires
        0 <= a < b,
    ensures
        magnitude(a) < magnitude(b),
{
    let ea = exponent_of(a);
    let eb = exponent_of(b);
    let fa = fraction_of(a);
    let fb = fraction_of(b);
    assert(ea <= eb);
    if ea == eb {
        assert(fa < fb);
        if ea > 0 {
            lemma_two_to_monotone((ea - 1) as nat, (ea - 1) as nat);
            let p = two_to((ea - 1) as nat) as int;
            assert((0x80_0000 + fa) * p < (0x80_0000 + fb) * p) by (nonlinear_arith)
                requires
                    fa < fb,
                    p > 0,
            ;
        }
    } else {
        let q = two_to((eb - 1) as nat) as int;
        lemma_two_to_monotone(0, (eb - 1) as nat);
        assert((0x80_0000 + fb) * q >= 0x80_0000 * q) by (nonlinear_arith)
            requires
                fb >= 0,
                q >= 1,
        ;
        if ea == 0 {
            assert(0x80_0000 * q >= 0x80_0000);
        } else {
            let p = two_to((ea - 1) as nat) as int;
            lemma_two_to_monotone(ea as nat, (eb - 1) as nat);
            lemma_two_to_monotone((ea - 1) as nat, (ea - 1) as nat);
            assert(two_to(ea as nat) == 2 * p);
            assert((0x80_0000 + fa) * p < 0x80_0000 * (2 * p)) by (nonlinear_arith)
                requires
                    fa < 0x80_0000,
                    p > 0,
            ;
            assert(0x80_0000 * (2 * p) <= 0x80_0000 * q);
        }
    }
}

/// The unsigned bits of twice a magnitude.
pub open spec fn doubled_bits(bits: int) -> int {
    if exponent_of(bits) == 0 {
        2 * bits
    } else {
        bits + 0x80_0000
    }
}

proof fn lemma_doubled(bits: int)
    requires
        0 <= bits,
    ensures
        magnitude(doubled_bits(bits)) == 2 * magnitude(bits),
        doubled_bits(bits) >= 0,
{
    let e = exponent_of(bits);
    let f = fraction_of(bits);
    if e == 0 {
        assert(f == bits);
        if 2 * bits >= 0x80_0000 {
            assert(exponent_of(2 * bits) == 1);
            assert(fraction_of(2 * bits) == 2 * bits - 0x80_0000);
            let g = 0x80_0000 + fraction_of(2 * bits);
            assert(g * two_to(0) == g) by (nonlinear_arith)
                requires
                    two_to(0) == 1,
            ;
        }
    } else {
        assert(exponent_of(bits + 0x80_0000) == e + 1);
        assert(fraction_of(bits + 0x80_0000) == f);
        let p = two_to((e - 1) as nat) as int;
        assert(two_to(e as nat) == 2 * p);
        assert((0x80_0000 + f) * (2 * p) == 2 * ((0x80_0000 + f) * p)) by (nonlinear_arith);
    }
}

/// The ternary digit of a value under a scale: 1 where the value, divided by
/// the scale and rounded half away from zero, is at least one; 2 where it is
/// at most minus one; 0 otherwise.  A value that is no number, and every value
/// under an infinite scale, rounds to zero.
pub open spec fn ternary_digit(value: u32, scale: u32) -> u8 {
    if is_nan(value) || is_infinite(scale) || 2 * magnitude(abs_bits(value)) < magnitude(
        abs_bits(scale),
    ) {
        0
    } else if is_negative(value) {
        2
    } else {
        1
    }
}

/// The unsigned bits of the largest magnitude, leaving out what is no number.
pub open spec fn largest_bits(values: Seq<u32>) -> int
    decreases values.len(),
{
    if values.len() == 0 {
        0
    } else {
        let rest = largest_bits(values.drop_last());
        let last = values.last();
        if !is_nan(last) && abs_bits(last) > rest {
            abs_bits(last)
        } else {
            rest
        }
    }
}

/// The single-precision bits of 1e-12, below which a block counts as zero.
pub const TINY_BITS: u32 = 0x2B8C_BCCC;

/// The single-precision bits of 1.0.
pub const ONE_BITS: u32 = 0x3F80_0000;

/// The scale of a block: its largest magnitude, or one where that is tiny.
pub open spec fn block_scale(values: Seq<u32>) -> u32 {
    if largest_bits(values) > TINY_BITS {
        largest_bits(values) as u32
    } else {
        ONE_BITS
    }
}

proof fn lemma_largest_range(values: Seq<u32>)
    ensures
        0 <= largest_bits(values) <= 0x7F80_0000,
    decreases values.len(),
{
    if values.len() > 0 {
        lemma_largest_range(values.drop_last());
    }
}

/// Half precision from single precision: the fraction is cut off, magnitudes
/// under the normal half range become zero, magnitudes above it infinite, and
/// what is no number becomes the positive quiet one.
pub open spec fn half_bits(b: u32) -> int {
    let e = exponent_of(abs_bits(b));
    let f = fraction_of(abs_bits(b));
    let s: int = if is_negative(b) {
        0x8000
    } else {
        0
    };
    if is_nan(b) {
        0x7E00
    } else if e >= 143 {
        s + 0x7C00
    } else if e <= 112 {
        s
    } else {
        s + (e - 112) * 0x400 + f / 0x2000
    }
}

pub fn f32_to_fp16_bits(x: u32) -> (r: u16)
    ensures
        r == half_bits(x),
{
    let negative: bool = x >= 0x8000_0000;
    let bits: u32 = x % 0x8000_0000;
    let s: u16 = if negative {
        0x8000
    } else {
        0
    };
    if bits > 0x7F80_0000 {
        return 0x7E00;
    }
    let e: u32 = bits / 0x80_0000;
    let m: u32 = bits % 0x80_0000;
    if e >= 143 {
        return s + 0x7C00;
    }
    if e <= 112 {
        return s;
    }
    s + ((e - 112) as u16) * 0x400 + (m / 0x2000) as u16
}

/// The magnitude of a finite half-precision value, in units of 2^-149.
pub open spec fn half_magnitude(h: u16) -> int {
    let e = (h as int / 0x400) % 32;
    let m = h as int % 0x400;
    if e == 0 {
        m * two_to(125)
    } else {
        (0x400 + m) * two_to((e + 124) as nat)
    }
}

/// Whether `r` is the single-precision form of the half-precision `h`: the
/// same value, with zero of either sign as plain zero and anything that is no
/// number as the positive quiet one.
pub open spec fn widens(h: u16, r: u32) -> bool {
    let e = (h as int / 0x400) % 32;
    let m = h as int % 0x400;
    let negative = h >= 0x8000;
    if e == 31 {
        if m != 0 {
            r == 0x7FC0_0000
        } else if negative {
            r == 0xFF80_0000
        } else {
            r == 0x7F80_0000
        }
    } else if e == 0 && m == 0 {
        r == 0
    } else {
        &&& abs_bits(r) < 0x7F80_0000
        &&& is_negative(r) == negative
        &&& magnitude(abs_bits(r)) == half_magnitude(h)
    }
}

/// The single-precision bits of a half-precision value.
pub open spec fn single_of_half(h: u16) -> u32 {
    choose|r: u32| widens(h, r)
}

/// A half-precision value has one single-precision form.
pub proof fn lemma_widens_unique(h: u16, r: u32)
    requires
        widens(h, r),
    ensures
        single_of_half(h) == r,
{
    let q = single_of_half(h);
    assert(widens(h, q));
    if abs_bits(q) < abs_bits(r) {
        lemma_magnitude_increases(abs_bits(q), abs_bits(r));
    } else if abs_bits(r) < abs_bits(q) {
        lemma_magnitude_increases(abs_bits(r), abs_bits(q));
    }
}

/// Single-precision bits of a half-precision value in little-endian bytes.
pub fn fp16_to_f32(b: [u8; 2]) -> (r: u32)
    ensures
        widens((b@[0] + 256 * b@[1]) as u16, r),
        r == single_of_half((b@[0] + 256 * b@[1]) as u16),
{
    let h: u16 = b[0] as u16 + 256 * (b[1] as u16);
    let r: u32 = half_to_single(h);
    proof {
        lemma_widens_unique(h, r);
    }
    r
}

/// Single-precision bits of a half-precision value.
pub fn half_to_single(h: u16) -> (r: u32)
    ensures
        widens(h, r),
{
    let s: u32 = if h >= 0x8000 {
        0x8000_0000
    } else {
        0
    };
    let e: u32 = ((h / 0x400) % 32) as u32;
    let mut m: u32 = (h % 0x400) as u32;
    if e == 31 {
        if m != 0 {
            return 0x7FC0_0000;
        }
        return s + 0x7F80_0000;
    }
    if e != 0 {
        let bits: u32 = (e + 112) * 0x80_0000 + m * 0x2000;
        proof {
            assert(exponent_of(bits as int) == e + 112);
            assert(fraction_of(bits as int) == m * 0x2000);
            lemma_two_to_adds((e + 111) as nat, 13);
            let p = two_to((e + 111) as nat) as int;
            lemma_powers();
            assert((0x80_0000 + m * 0x2000) * p == (0x400 + m) * (p * 0x2000)) by (nonlinear_arith);
        }
        return s + bits;
    }
    if m == 0 {
        return 0;
    }
    let ghost start = m;
    let mut exp: u32 = 113;
    proof {
        lemma_two_to_adds(112, 13);
        lemma_powers();
    }
    while m < 0x400
        invariant
            0 < m < 0x800,
            0 < start < 0x400,
            103 <= exp <= 113,
            exp == 113 ==> m < 0x400,
            m * two_to((exp - 1 + 13) as nat) == start * two_to(125),
            m >= two_to((113 - exp) as nat),
        decreases exp,
    {
        proof {
            let p = two_to((exp - 2 + 13) as nat) as int;
            assert(two_to((exp - 1 + 13) as nat) == 2 * p);
            assert((2 * m) * p == m * (2 * p)) by (nonlinear_arith);
            if exp == 103 {
                assert(two_to(10) == 0x400) by {
                    reveal_with_fuel(two_to, 11);
                }
            }
            assert(two_to((113 - exp + 1) as nat) == 2 * two_to((113 - exp) as nat));
        }
        m = m * 2;
        exp = exp - 1;
    }
    let bits: u32 = exp * 0x80_0000 + (m - 0x400) * 0x2000;
    proof {
        assert(exponent_of(bits as int) == exp as int);
        assert(fraction_of(bits as int) == (m - 0x400) * 0x2000);
        lemma_two_to_adds((exp - 1) as nat, 13);
        let p = two_to((exp - 1) as nat) as int;
        assert((0x80_0000 + (m - 0x400) * 0x2000) * p == m * (p * 0x2000)) by (nonlinear_arith);
        assert(two_to((exp - 1 + 13) as nat) == p * 0x2000);
    }
    s + bits
}

fn largest(block: &[u32; 256]) -> (r: u32)
    ensures
        r == largest_bits(block@),
        r <= 0x7F80_0000,
{
    let mut best: u32 = 0;
    let mut i: usize = 0;
    assert(block@.take(0) =~= Seq::<u32>::empty());
    while i < 256
        invariant
            i <= 256,
            best == largest_bits(block@.take(i as int)),
            best <= 0x7F80_0000,
        decreases 256 - i,
    {
        let v: u32 = block[i] % 0x8000_0000;
        assert(block@.take(i + 1).drop_last() =~= block@.take(i as int));
        if v <= 0x7F80_0000 && v > best {
            best = v;
        }
        i = i + 1;
    }
    assert(block@.take(256) =~= block@);
    best
}

fn digit_of(value: u32, scale: u32) -> (r: u8)
    requires
        scale <= 0x7F80_0000,
    ensures
        r == ternary_digit(value, scale),
        r <= 2,
{
    let bits: u32 = value % 0x8000_0000;
    if bits > 0x7F80_0000 || scale == 0x7F80_0000 {
        return 0;
    }
    let twice: u32 = if bits < 0x80_0000 {
        2 * bits
    } else {
        bits + 0x80_0000
    };
    proof {
        lemma_doubled(bits as int);
        assert(twice as int == doubled_bits(bits as int));
        if twice < scale {
            lemma_magnitude_increases(twice as int, scale as int);
        } else if scale < twice {
            lemma_magnitude_increases(scale as int, twice as int);
        }
    }
    if twice < scale {
        0
    } else if value >= 0x8000_0000 {
        2
    } else {
        1
    }
}

/// Four ternary digits in two bits each, the first in the lowest bits.
pub open spec fn crumbs(values: Seq<u32>, scale: u32, i: int) -> int {
    ternary_digit(values[4 * i], scale) + 4 * ternary_digit(values[4 * i + 1], scale) + 16
        * ternary_digit(values[4 * i + 2], scale) + 64 * ternary_digit(values[4 * i + 3], scale)
}

/// Quantizes a block of 256 single-precision values to ternary digits under
/// one half-precision scale.
pub fn ternary_quantize_block(block: &[u32; 256]) -> (r: ([u8; 2], [u8; 64]))
    ensures
        r.0@ == wire::le_bytes(half_bits(block_scale(block@)) as nat, 2),
        forall|i: int|
            0 <= i < 64 ==> #[trigger] r.1@[i] == crumbs(block@, block_scale(block@), i),
{
    let top: u32 = largest(block);
    let scale: u32 = if top > TINY_BITS {
        top
    } else {
        ONE_BITS
    };
    let half: u16 = f32_to_fp16_bits(scale);
    let mut packed: [u8; 64] = [0u8; 64];
    let mut i: usize = 0;
    while i < 64
        invariant
            i <= 64,
            scale == block_scale(block@),
            scale <= 0x7F80_0000,
            forall|j: int| 0 <= j < i ==> #[trigger] packed@[j] == crumbs(block@, scale, j),
        decreases 64 - i,
    {
        let d0: u8 = digit_of(block[4 * i], scale);
        let d1: u8 = digit_of(block[4 * i + 1], scale);
        let d2: u8 = digit_of(block[4 * i + 2], scale);
        let d3: u8 = digit_of(block[4 * i + 3], scale);
        packed[i] = d0 + 4 * d1 + 16 * d2 + 64 * d3;
        i = i + 1;
    }
    let scale_bytes: [u8; 2] = [(half % 256) as u8, (half / 256) as u8];
    proof {
        reveal_with_fuel(wire::le_bytes, 3);
        assert(scale_bytes@ =~= wire::le_bytes(half as nat, 2));
    }
    (scale_bytes, packed)
}

/// The whole number nearest to `n / d`, halves to the even one.
pub open spec fn nearest_even(n: int, d: int) -> int {
    let q = n / d;
    let r = n % d;
    if 2 * r < d || 2 * r == d && q % 2 == 0 {
        q
    } else {
        q + 1
    }
}

/// The bits of the half-precision value nearest to the one with the given
/// unsigned single-precision bits, halves to even: a whole number of units of
/// 2^-24 under the normal half range, infinity above it.
pub open spec fn nearest_half(bits: int) -> int {
    let e = exponent_of(bits);
    let f = fraction_of(bits);
    if bits > 0x7F80_0000 {
        0x7E00
    } else if e >= 143 {
        0x7C00
    } else if e >= 113 {
        nearest_even((e - 112) * 0x80_0000 + f, 0x2000)
    } else if e >= 102 {
        nearest_even(0x80_0000 + f, two_to((126 - e) as nat) as int)
    } else {
        0
    }
}

/// Half precision from the bits of a value that is not negative, to nearest.
pub fn to_nearest_half(x: u32) -> (r: u16)
    requires
        x < 0x8000_0000,
    ensures
        r == nearest_half(x as int),
{
    if x > 0x7F80_0000 {
        return 0x7E00;
    }
    let e: u32 = x / 0x80_0000;
    let m: u32 = x % 0x80_0000;
    if e >= 143 {
        return 0x7C00;
    }
    if e < 102 {
        return 0;
    }
    let mut n: u32 = 0x80_0000 + m;
    let mut d: u32 = 0x2000;
    if e >= 113 {
        n = (e - 112) * 0x80_0000 + m;
    } else {
        let mut shift: u32 = 13;
        proof {
            lemma_powers();
        }
        while shift < 126 - e
            invariant
                13 <= shift <= 126 - e,
                102 <= e <= 112,
                d == two_to(shift as nat),
                shift <= 24,
                0x2000 <= d <= 0x100_0000,
            decreases 126 - e - shift,
        {
            assert(two_to((shift + 1) as nat) == 2 * two_to(shift as nat));
            proof {
                lemma_powers();
                lemma_two_to_monotone((shift + 1) as nat, 24);
            }
            d = d * 2;
            shift = shift + 1;
        }
    }
    let q: u32 = n / d;
    let rest: u32 = n % d;
    proof {
        assert(q <= n / 0x2000) by (nonlinear_arith)
            requires
                q == n / d,
                d >= 0x2000,
                n >= 0,
        ;
    }
    if 2 * rest < d || (2 * rest == d && q % 2 == 0) {
        q as u16
    } else {
        (q + 1) as u16
    }
}

/// The whole number nearest to `n / d`.
pub open spec fn nearest(n: int, d: int) -> int {
    (2 * n + d) / (2 * d)
}

/// The unsigned bits of one over the value with the given unsigned bits,
/// rounded to single precision.  A significand that is no power of two never
/// falls halfway between two results.
pub open spec fn reciprocal(scale: u32) -> u32 {
    let e = exponent_of(scale as int);
    let f = fraction_of(scale as int);
    let m = 0x80_0000 + f;
    if e == 255 {
        0
    } else if f == 0 {
        (if e <= 253 {
            (254 - e) * 0x80_0000
        } else {
            0x40_0000
        }) as u32
    } else if e <= 252 {
        ((253 - e) * 0x80_0000 + nearest(0x8000_0000_0000, m) - 0x80_0000) as u32
    } else if e == 253 {
        nearest(0x4000_0000_0000, m) as u32
    } else {
        nearest(0x2000_0000_0000, m) as u32
    }
}

/// One over a positive normal or infinite value, in single precision.
pub fn reciprocal_of(scale: u32) -> (r: u32)
    requires
        0x80_0000 <= scale <= 0x7F80_0000,
    ensures
        r == reciprocal(scale),
        r < 0x7F80_0000,
{
    let e: u32 = scale / 0x80_0000;
    let f: u32 = scale % 0x80_0000;
    if e == 255 {
        return 0;
    }
    if f == 0 {
        if e <= 253 {
            return (254 - e) * 0x80_0000;
        }
        return 0x40_0000;
    }
    let m: u64 = 0x80_0000 + f as u64;
    let top: u64 = if e <= 252 {
        0x8000_0000_0000
    } else if e == 253 {
        0x4000_0000_0000
    } else {
        0x2000_0000_0000
    };
    let q: u64 = (2 * top + m) / (2 * m);
    proof {
        lemma_quotient_range(m as int);
    }
    if e <= 252 {
        (253 - e) * 0x80_0000 + (q as u32 - 0x80_0000)
    } else {
        q as u32
    }
}

proof fn lemma_quotient_range(m: int)
    requires
        0x80_0000 < m < 0x100_0000,
    ensures
        0x80_0000 <= nearest(0x8000_0000_0000, m) < 0x100_0000,
        0 <= nearest(0x4000_0000_0000, m) <= 0x80_0000,
        0 <= nearest(0x2000_0000_0000, m) <= 0x80_0000,
{
    assert(0x80_0000 <= (2 * 0x8000_0000_0000int + m) / (2 * m) < 0x100_0000) by (nonlinear_arith)
        requires
            0x80_0000 < m < 0x100_0000,
    ;
    assert(0 <= (2 * 0x4000_0000_0000int + m) / (2 * m) <= 0x80_0000) by (nonlinear_arith)
        requires
            0x80_0000 < m < 0x100_0000,
    ;
    assert(0 <= (2 * 0x2000_0000_0000int + m) / (2 * m) <= 0x80_0000) by (nonlinear_arith)
        requires
            0x80_0000 < m < 0x100_0000,
    ;
}

/// Whether the single-precision product of two magnitudes rounds to one: it
/// does where the exact product reaches the point halfway between one half and
/// the value just below it, which rounds up to the even one half.  A value that
/// is no number or infinite does not.
pub open spec fn rounds_to_one(value: u32, factor: u32) -> bool {
    &&& abs_bits(value) < 0x7F80_0000
    &&& 2 * (magnitude(abs_bits(value)) * magnitude(abs_bits(factor))) >= (magnitude(0x3F00_0000)
        + magnitude(0x3EFF_FFFF)) * two_to(149)
}

/// The significand and the exponent of its unit, in powers of two.
fn split(bits: u32) -> (r: (u64, u32))
    requires
        bits < 0x7F80_0000,
    ensures
        magnitude(bits as int) == r.0 * two_to(r.1 as nat),
        r.0 < 0x100_0000,
        r.1 <= 253,
{
    let e: u32 = bits / 0x80_0000;
    let m: u32 = bits % 0x80_0000;
    if e == 0 {
        assert(m * two_to(0) == m) by (nonlinear_arith)
            requires
                two_to(0) == 1,
        ;
        (m as u64, 0)
    } else {
        (0x80_0000 + m as u64, e - 1)
    }
}

proof fn lemma_half_point()
    ensures
        magnitude(0x3F00_0000) + magnitude(0x3EFF_FFFF) == 0x1FF_FFFF * two_to(124),
{
    assert(exponent_of(0x3F00_0000) == 126 && fraction_of(0x3F00_0000) == 0);
    assert(exponent_of(0x3EFF_FFFF) == 125 && fraction_of(0x3EFF_FFFF) == 0x7F_FFFF);
    let p = two_to(124) as int;
    assert(two_to(125) == 2 * p);
    assert((0x80_0000 + 0) * (2 * p) + (0x80_0000 + 0x7F_FFFF) * p == 0x1FF_FFFF * p)
        by (nonlinear_arith);
}

/// Compares `p * 2^a` with `t * 2^b`.
proof fn lemma_scaled_order(p: int, a: nat, t: int, b: nat)
    ensures
        a >= b ==> (p * two_to(a) >= t * two_to(b) <==> p * two_to((a - b) as nat) >= t),
        a < b ==> (p * two_to(a) >= t * two_to(b) <==> p >= t * two_to((b - a) as nat)),
{
    if a >= b {
        let q = two_to(b) as int;
        let r = two_to((a - b) as nat) as int;
        lemma_two_to_adds(b, (a - b) as nat);
        lemma_two_to_monotone(b, b);
        assert(p * (q * r) == (p * r) * q) by (nonlinear_arith);
        assert((p * r) * q >= t * q <==> p * r >= t) by (nonlinear_arith)
            requires
                q > 0,
        ;
    } else {
        let q = two_to(a) as int;
        let r = two_to((b - a) as nat) as int;
        lemma_two_to_adds(a, (b - a) as nat);
        lemma_two_to_monotone(a, a);
        assert(t * (q * r) == (t * r) * q) by (nonlinear_arith);
        assert(p * q >= (t * r) * q <==> p >= t * r) by (nonlinear_arith)
            requires
                q > 0,
        ;
    }
}

proof fn lemma_product_condition(v: int, f: int, mv: int, ev: nat, mf: int, ef: nat)
    requires
        magnitude(v) == mv * two_to(ev),
        magnitude(f) == mf * two_to(ef),
    ensures
        2 * (magnitude(v) * magnitude(f)) >= (magnitude(0x3F00_0000) + magnitude(0x3EFF_FFFF))
            * two_to(149) <==> (mv * mf) * two_to((ev + ef + 1) as nat) >= 0x1FF_FFFF * two_to(273),
{
    lemma_half_point();
    let x = two_to(ev) as int;
    let y = two_to(ef) as int;
    let p = mv * mf;
    lemma_two_to_adds(ev, ef);
    assert((mv * x) * (mf * y) == (mv * mf) * (x * y)) by (nonlinear_arith);
    assert(two_to((ev + ef + 1) as nat) == 2 * (x * y));
    assert(2 * (p * (x * y)) == p * (2 * (x * y))) by (nonlinear_arith);
    lemma_two_to_adds(124, 149);
    let u = two_to(124) as int;
    let w = two_to(149) as int;
    assert((0x1FF_FFFF * u) * w == 0x1FF_FFFF * (u * w)) by (nonlinear_arith);
}

/// Whether the single-precision product of a value and a finite positive
/// factor has a magnitude that rounds to one.
pub fn product_rounds_to_one(value: u32, factor: u32) -> (r: bool)
    requires
        factor < 0x7F80_0000,
    ensures
        r == rounds_to_one(value, factor),
{
    let bits: u32 = value % 0x8000_0000;
    if bits >= 0x7F80_0000 {
        return false;
    }
    let (mv, ev) = split(bits);
    let (mf, ef) = split(factor);
    proof {
        assert(0 <= mv * mf < 0x1_0000_0000_0000) by (nonlinear_arith)
            requires
                0 <= mv < 0x100_0000,
                0 <= mf < 0x100_0000,
        ;
    }
    let p: u64 = mv * mf;
    let a: u32 = ev + ef + 1;
    proof {
        lemma_product_condition(
            abs_bits(value),
            factor as int,
            mv as int,
            ev as nat,
            mf as int,
            ef as nat,
        );
        lemma_scaled_order(p as int, a as nat, 0x1FF_FFFF, 273);
    }
    if a >= 273 {
        if p == 0 {
            assert(0 * two_to((a - 273) as nat) == 0);
            return false;
        }
        let k: u32 = a - 273;
        if k >= 25 {
            proof {
                lemma_two_to_monotone(25, k as nat);
                lemma_powers();
                let z = two_to(k as nat) as int;
                assert(p * z >= z) by (nonlinear_arith)
                    requires
                        p >= 1,
                        z >= 0,
                ;
            }
            return true;
        }
        let scaled: u128 = scale_up(p, k);
        scaled >= 0x1FF_FFFF
    } else {
        let k: u32 = 273 - a;
        if k >= 48 {
            proof {
                lemma_two_to_monotone(48, k as nat);
                lemma_powers();
            }
            return false;
        }
        let scaled: u128 = scale_up(0x1FF_FFFF, k);
        p as u128 >= scaled
    }
}

/// `n * 2^k`.
fn scale_up(n: u64, k: u32) -> (r: u128)
    requires
        n < 0x1_0000_0000_0000,
        k <= 48,
    ensures
        r == n * two_to(k as nat),
{
    let mut r: u128 = n as u128;
    let mut i: u32 = 0;
    assert(n * two_to(0) == n) by (nonlinear_arith)
        requires
            two_to(0) == 1,
    ;
    while i < k
        invariant
            i <= k <= 48,
            n < 0x1_0000_0000_0000,
            r == n * two_to(i as nat),
        decreases k - i,
    {
        proof {
            let z = two_to(i as nat) as int;
            lemma_two_to_monotone(i as nat, 48);
            lemma_powers();
            assert(n * z <= 0x1_0000_0000_0000 * 0x1_0000_0000_0000) by (nonlinear_arith)
                requires
                    0 <= n < 0x1_0000_0000_0000,
                    0 <= z <= 0x1_0000_0000_0000,
            ;
            assert(n * (2 * z) == 2 * (n * z)) by (nonlinear_arith);
        }
        r = r * 2;
        i = i + 1;
    }
    r
}

/// Under a scale of one, one and minus one round to one and zero does not.
pub proof fn lemma_unit_products()
    ensures
        reciprocal(ONE_BITS) == ONE_BITS,
        rounds_to_one(0x3F80_0000, ONE_BITS),
        rounds_to_one(0xBF80_0000, ONE_BITS),
        !rounds_to_one(0, ONE_BITS),
{
    lemma_half_point();
    assert(exponent_of(0x3F80_0000) == 127 && fraction_of(0x3F80_0000) == 0);
    assert(abs_bits(0xBF80_0000) == 0x3F80_0000);
    let one = magnitude(0x3F80_0000);
    let u = two_to(124) as int;
    lemma_two_to_monotone(124, 124);
    assert(two_to(126) == 4 * u) by {
        reveal_with_fuel(two_to, 3);
    }
    assert(one == 0x80_0000 * (4 * u));
    let w = two_to(149) as int;
    lemma_two_to_adds(124, 25);
    lemma_two_to_monotone(149, 149);
    lemma_powers();
    assert(w == u * 0x200_0000);
    assert(one == w);
    assert(2 * (w * w) >= (0x1FF_FFFF * u) * w) by (nonlinear_arith)
        requires
            w == u * 0x200_0000,
            u > 0,
    ;
    assert(magnitude(0) == 0);
    assert(magnitude(0) * one == 0) by (nonlinear_arith)
        requires
            magnitude(0) == 0,
    ;
    assert((0x1FF_FFFF * u) * w > 0) by (nonlinear_arith)
        requires
            u > 0,
            w > 0,
    ;
}

/// Whether the single-precision product of two magnitudes is more than one
/// half: it is where the exact product lies beyond the point halfway between one
/// half and the next larger value, which itself rounds down to the even one
/// half.  The product with a value that is no number or infinite is not.
pub open spec fn exceeds_half(value: u32, factor: u32) -> bool {
    &&& abs_bits(value) < 0x7F80_0000
    &&& 2 * (magnitude(abs_bits(value)) * magnitude(abs_bits(factor))) > (magnitude(0x3F00_0000)
        + magnitude(0x3F00_0001)) * two_to(149)
}

/// The ternary digit of a value times a factor: 1 above one half, 2 below minus
/// one half, 0 between.
pub open spec fn product_digit(value: u32, factor: u32) -> u8 {
    if !exceeds_half(value, factor) {
        0
    } else if is_negative(value) {
        2
    } else {
        1
    }
}

proof fn lemma_above_half_condition(v: int, f: int, mv: int, ev: nat, mf: int, ef: nat)
    requires
        magnitude(v) == mv * two_to(ev),
        magnitude(f) == mf * two_to(ef),
    ensures
        2 * (magnitude(v) * magnitude(f)) > (magnitude(0x3F00_0000) + magnitude(0x3F00_0001))
            * two_to(149) <==> !(0x100_0001 * two_to(274) >= (mv * mf) * two_to(
            (ev + ef + 1) as nat,
        )),
{
    assert(exponent_of(0x3F00_0000) == 126 && fraction_of(0x3F00_0000) == 0);
    assert(exponent_of(0x3F00_0001) == 126 && fraction_of(0x3F00_0001) == 1);
    let u = two_to(125) as int;
    assert((0x80_0000 + 0) * u + (0x80_0000 + 1) * u == 0x100_0001 * u) by (nonlinear_arith);
    let x = two_to(ev) as int;
    let y = two_to(ef) as int;
    let p = mv * mf;
    lemma_two_to_adds(ev, ef);
    assert((mv * x) * (mf * y) == (mv * mf) * (x * y)) by (nonlinear_arith);
    assert(two_to((ev + ef + 1) as nat) == 2 * (x * y));
    assert(2 * (p * (x * y)) == p * (2 * (x * y))) by (nonlinear_arith);
    lemma_two_to_adds(125, 149);
    let w = two_to(149) as int;
    assert((0x100_0001 * u) * w == 0x100_0001 * (u * w)) by (nonlinear_arith);
}

/// Whether the single-precision product of a value and a finite positive factor
/// has a magnitude above one half.
pub fn product_exceeds_half(value: u32, factor: u32) -> (r: bool)
    requires
        factor < 0x7F80_0000,
    ensures
        r == exceeds_half(value, factor),
{
    let bits: u32 = value % 0x8000_0000;
    if bits >= 0x7F80_0000 {
        return false;
    }
    let (mv, ev) = split(bits);
    let (mf, ef) = split(factor);
    proof {
        assert(0 <= mv * mf < 0x1_0000_0000_0000) by (nonlinear_arith)
            requires
                0 <= mv < 0x100_0000,
                0 <= mf < 0x100_0000,
        ;
    }
    let p: u64 = mv * mf;
    let a: u32 = ev + ef + 1;
    proof {
        lemma_above_half_condition(
            abs_bits(value),
            factor as int,
            mv as int,
            ev as nat,
            mf as int,
            ef as nat,
        );
        lemma_scaled_order(0x100_0001, 274, p as int, a as nat);
    }
    if a > 274 {
        if p == 0 {
            assert(0 * two_to((a - 274) as nat) == 0);
            return false;
        }
        let k: u32 = a - 274;
        if k >= 25 {
            proof {
                lemma_two_to_monotone(25, k as nat);
                lemma_powers();
                let z = two_to(k as nat) as int;
                assert(p * z >= z) by (nonlinear_arith)
                    requires
                        p >= 1,
                        z >= 0,
                ;
            }
            return true;
        }
        let scaled: u128 = scale_up(p, k);
        scaled > 0x100_0001
    } else {
        let k: u32 = 274 - a;
        if k >= 48 {
            proof {
                lemma_two_to_monotone(48, k as nat);
                lemma_powers();
            }
            return false;
        }
        let scaled: u128 = scale_up(0x100_0001, k);
        p as u128 > scaled
    }
}

/// The ternary digit of a value times a finite positive factor.
pub fn digit_of_product(value: u32, factor: u32) -> (r: u8)
    requires
        factor < 0x7F80_0000,
    ensures
        r == product_digit(value, factor),
        r <= 2,
{
    if !product_exceeds_half(value, factor) {
        0
    } else if value >= 0x8000_0000 {
        2
    } else {
        1
    }
}

/// The scale of the values at `start` up to `end`: their largest magnitude, or
/// one where that is tiny.
pub fn scale_of(values: &Vec<u32>, start: usize, end: usize) -> (r: u32)
    requires
        start <= end <= values.len(),
    ensures
        r == block_scale(values@.subrange(start as int, end as int)),
        0x80_0000 <= r <= 0x7F80_0000,
{
    let ghost all = values@.subrange(start as int, end as int);
    let mut top: u32 = 0;
    let mut i: usize = start;
    assert(all.take(0) =~= Seq::<u32>::empty());
    while i < end
        invariant
            start <= i <= end <= values.len(),
            all == values@.subrange(start as int, end as int),
            top == largest_bits(all.take(i - start)),
        decreases end - i,
    {
        proof {
            let next = all.take(i - start + 1);
            assert(next.drop_last() =~= all.take(i - start));
            assert(next.last() == values@[i as int]);
        }
        let bits: u32 = values[i] % 0x8000_0000;
        if bits <= 0x7F80_0000 && bits > top {
            top = bits;
        }
        i = i + 1;
    }
    proof {
        assert(all.take(end - start) =~= all);
        lemma_largest_range(all);
    }
    if top > TINY_BITS {
        top
    } else {
        ONE_BITS
    }
}

/// Single precision from half precision: zeros keep their sign, and the bits of
/// what is no number are carried over.
pub open spec fn widened_half(h: u16) -> u32 {
    let e = (h as int / 0x400) % 32;
    let m = h as int % 0x400;
    let s: int = if h >= 0x8000 {
        0x8000_0000
    } else {
        0
    };
    if e == 0 && m == 0 {
        s as u32
    } else if e == 31 {
        (s + 0x7F80_0000 + m * 0x2000) as u32
    } else {
        single_of_half(h)
    }
}

/// The single-precision bits of a half-precision value.
pub fn half_to_f32(bits: u16) -> (r: u32)
    ensures
        r == widened_half(bits),
{
    let sign: u32 = if bits >= 0x8000 {
        0x8000_0000
    } else {
        0
    };
    let e: u32 = (bits as u32 / 0x400) % 32;
    let m: u32 = bits as u32 % 0x400;
    if e == 0 && m == 0 {
        sign
    } else if e == 31 {
        sign + 0x7F80_0000 + m * 0x2000
    } else {
        let r: u32 = half_to_single(bits);
        proof {
            lemma_widens_unique(bits, r);
        }
        r
    }
}

// ---------------------------------------------------------------------------
// Laws
// ---------------------------------------------------------------------------

proof fn lemma_two_to_is_pow2(n: nat)
    ensures
        two_to(n) == pow2(n),
    decreases n,
{
    if n == 0 {
        lemma2_to64();
    } else {
        lemma_two_to_is_pow2((n - 1) as nat);
        lemma_pow2_unfold(n);
    }
}

/// The magnitude of a single-precision value with a biased exponent and a stored
/// fraction, in units of the smallest one: the fraction alone under the normal range,
/// and 24 bits with a leading one, shifted by the exponent, within it.
pub proof fn law_magnitude_by_exponent_and_fraction(e: nat, f: nat)
    requires
        f < 0x80_0000,
    ensures
        e == 0 ==> magnitude(f as int) == f,
        e > 0 ==> magnitude((0x80_0000 * e + f) as int) == (0x80_0000 + f) * pow2((e - 1) as nat),
{
    if e > 0 {
        lemma_two_to_is_pow2((e - 1) as nat);
        assert(exponent_of((0x80_0000 * e + f) as int) == e);
        assert(fraction_of((0x80_0000 * e + f) as int) == f);
    }
}

proof fn lemma_nearest_close(n: int, m: int)
    requires
        m > 0,
        n >= 0,
    ensures
        -m <= 2 * (m * nearest(n, m) - n) <= m,
{
    let q = nearest(n, m);
    vstd::arithmetic::div_mod::lemma_fundamental_div_mod(2 * n + m, 2 * m);
    vstd::arithmetic::div_mod::lemma_mod_bound(2 * n + m, 2 * m);
    assert((2 * m) * q == 2 * (m * q)) by (nonlinear_arith);
}

/// A factor of the product is within a part in 2^22 of what makes it 2^298.
#[verifier::spinoff_prover]
#[verifier::rlimit(30)]
proof fn lemma_close_product(m: int, n: int, a: nat, b: nat, k: nat)
    requires
        0x80_0000 <= m < 0x100_0000,
        0 <= n,
        -m <= 2 * (m * n - two_to(k)) <= m,
        a + b + k == 298,
        45 <= k,
    ensures
        -two_to(276) <= (m * two_to(a)) * (n * two_to(b)) - two_to(298) <= two_to(276),
{
    let x = two_to(a) as int;
    let y = two_to(b) as int;
    let z = x * y;
    lemma_two_to_adds(a, b);
    lemma_two_to_adds(a + b, k);
    lemma_two_to_adds(a + b, 23);
    lemma_two_to_monotone(a + b + 23, 276);
    lemma_two_to_monotone(a + b, a + b);
    assert(two_to(23) == 0x80_0000) by {
        reveal_with_fuel(two_to, 24);
    }
    let d = m * n - two_to(k);
    assert((m * x) * (n * y) == (m * n) * z) by (nonlinear_arith)
        requires
            z == x * y,
    ;
    assert((m * n) * z - two_to(k) * z == d * z) by (nonlinear_arith)
        requires
            d == m * n - two_to(k),
    ;
    assert(two_to(298) == two_to(k) * z) by (nonlinear_arith)
        requires
            two_to(298) == z * two_to(k),
    ;
    assert(-0x80_0000 * z <= d * z <= 0x80_0000 * z) by (nonlinear_arith)
        requires
            -0x80_0000 <= d <= 0x80_0000,
            z > 0,
    ;
    assert(0x80_0000 * z == two_to(a + b + 23)) by (nonlinear_arith)
        requires
            two_to(a + b + 23) == z * 0x80_0000,
    ;
}

#[verifier::spinoff_prover]
#[verifier::rlimit(30)]
proof fn lemma_reciprocal_close(scale: u32)
    requires
        0x80_0000 <= scale < 0x7F80_0000,
    ensures
        0 < reciprocal(scale) < 0x7F80_0000,
        -two_to(276) <= magnitude(scale as int) * magnitude(reciprocal(scale) as int) - two_to(298)
            <= two_to(276),
{
    let e = exponent_of(scale as int);
    let f = fraction_of(scale as int);
    let m = 0x80_0000 + f;
    let r = reciprocal(scale) as int;
    lemma_powers();
    assert(two_to(22) == 0x40_0000 && two_to(23) == 0x80_0000) by {
        reveal_with_fuel(two_to, 24);
    }
    lemma_two_to_adds(24, 23);
    lemma_two_to_adds(23, 23);
    lemma_two_to_adds(22, 23);
    assert(two_to(0) == 1);
    if f == 0 {
        let n = if e <= 253 {
            0x80_0000int
        } else {
            0x40_0000
        };
        let b = if e <= 253 {
            253 - e
        } else {
            0
        };
        if e <= 253 {
            assert(exponent_of(r) == 254 - e && fraction_of(r) == 0);
        }
        assert(magnitude(r) == n * two_to(b as nat)) by (nonlinear_arith)
            requires
                e <= 253 ==> magnitude(r) == 0x80_0000 * two_to((253 - e) as nat) && n == 0x80_0000
                    && b == 253 - e,
                e > 253 ==> magnitude(r) == 0x40_0000 && n == 0x40_0000 && b == 0,
                two_to(0) == 1,
        ;
        let k = if e <= 253 {
            46nat
        } else {
            45
        };
        assert(m * n == two_to(k)) by (nonlinear_arith)
            requires
                m == 0x80_0000,
                k == 46 ==> n == 0x80_0000 && two_to(k) == 0x80_0000 * 0x80_0000,
                k == 45 ==> n == 0x40_0000 && two_to(k) == 0x40_0000 * 0x80_0000,
                k == 46 || k == 45,
        ;
        lemma_close_product(m, n, (e - 1) as nat, b as nat, k);
    } else {
        lemma_quotient_range(m);
        if e <= 252 {
            let n = nearest(0x8000_0000_0000, m);
            assert(exponent_of(r) == 253 - e && fraction_of(r) == n - 0x80_0000);
            lemma_nearest_close(0x8000_0000_0000, m);
            lemma_close_product(m, n, (e - 1) as nat, (252 - e) as nat, 47);
        } else {
            let k = if e == 253 {
                46nat
            } else {
                45
            };
            let n = nearest(two_to(k) as int, m);
            lemma_nearest_close(two_to(k) as int, m);
            assert(r == n);
            assert(0 < n) by (nonlinear_arith)
                requires
                    -m <= 2 * (m * n - two_to(k)),
                    0x80_0000 <= m < 0x100_0000,
                    two_to(k) >= 0x2000_0000_0000,
            ;
            assert(magnitude(r) == n * two_to(0)) by (nonlinear_arith)
                requires
                    magnitude(r) == n,
                    two_to(0) == 1,
            ;
            lemma_close_product(m, n, (e - 1) as nat, 0, k);
        }
    }
}

/// One over a finite scale, times the scale, is one to within a part in four million:
/// in units of the smallest magnitude one times one is 2^298.
pub proof fn law_reciprocal_undoes_scale(scale: u32, r: u32)
    requires
        0x80_0000 <= scale < 0x7F80_0000,
        call_ensures(reciprocal_of, (scale,), r),
    ensures
        0 < r < 0x7F80_0000,
        -pow2(276) <= magnitude(scale as int) * magnitude(r as int) - pow2(298) <= pow2(276),
{
    lemma_reciprocal_close(scale);
    lemma_two_to_is_pow2(276);
    lemma_two_to_is_pow2(298);
}

/// The digit of a product is nonzero exactly where the product of the magnitudes is
/// beyond the point halfway between one half and the next larger value, which in
/// products of units is 2^24 + 1 times 2^273; then it is 2 for a negative value and 1
/// for a positive one.
pub proof fn law_product_digit_is_by_half(value: u32, factor: u32, d: u8)
    requires
        factor < 0x7F80_0000,
        call_ensures(digit_of_product, (value, factor), d),
    ensures
        (d != 0) == (value % 0x8000_0000 < 0x7F80_0000 && magnitude(value as int % 0x8000_0000)
            * magnitude(factor as int) > 0x100_0001 * pow2(273)),
        d != 0 ==> d == (if value < 0x8000_0000 {
            1u8
        } else {
            2
        }),
{
    lemma_two_to_is_pow2(273);
    assert(two_to(274) == 2 * two_to(273));
    lemma_half_above();
    let x = magnitude(value as int % 0x8000_0000) * magnitude(factor as int);
    lemma_two_to_adds(125, 149);
    let u = two_to(125) as int;
    let w = two_to(149) as int;
    assert((0x100_0001 * u) * w == 0x100_0001 * (u * w)) by (nonlinear_arith);
}

proof fn lemma_half_above()
    ensures
        magnitude(0x3F00_0000) + magnitude(0x3F00_0001) == 0x100_0001 * two_to(125),
{
    assert(exponent_of(0x3F00_0000) == 126 && fraction_of(0x3F00_0000) == 0);
    assert(exponent_of(0x3F00_0001) == 126 && fraction_of(0x3F00_0001) == 1);
    let u = two_to(125) as int;
    assert((0x80_0000 + 0) * u + (0x80_0000 + 1) * u == 0x100_0001 * u) by (nonlinear_arith);
}

/// A product rounds to one exactly where the product of the magnitudes reaches the
/// point halfway between one half and the next smaller value, which in products of
/// units is 2^25 - 1 times 2^272.
pub proof fn law_product_rounds_by_half(value: u32, factor: u32, r: bool)
    requires
        factor < 0x7F80_0000,
        call_ensures(product_rounds_to_one, (value, factor), r),
    ensures
        r == (value % 0x8000_0000 < 0x7F80_0000 && magnitude(value as int % 0x8000_0000)
            * magnitude(factor as int) >= 0x1FF_FFFF * pow2(272)),
{
    lemma_two_to_is_pow2(272);
    assert(two_to(273) == 2 * two_to(272));
    lemma_half_point();
    lemma_two_to_adds(124, 149);
    let u = two_to(124) as int;
    let w = two_to(149) as int;
    assert((0x1FF_FFFF * u) * w == 0x1FF_FFFF * (u * w)) by (nonlinear_arith);
}

/// Under a finite scale the digit of a value times one over the scale goes by half
/// the scale, to within a part in two million: a value beyond it has a nonzero digit,
/// and one beneath it has none.
#[verifier::spinoff_prover]
#[verifier::rlimit(30)]
pub proof fn lemma_digit_by_half_scale(value: u32, scale: u32)
    requires
        0x80_0000 <= scale < 0x7F80_0000,
        abs_bits(value) < 0x7F80_0000,
    ensures
        0x40_0000 * (2 * magnitude(abs_bits(value))) > 0x40_0002 * magnitude(scale as int)
            ==> exceeds_half(value, reciprocal(scale)),
        0x40_0000 * (2 * magnitude(abs_bits(value))) <= 0x3F_FFFE * magnitude(scale as int)
            ==> !exceeds_half(value, reciprocal(scale)),
{
    lemma_reciprocal_close(scale);
    lemma_half_above();
    lemma_two_to_adds(125, 149);
    lemma_two_to_adds(276, 22);
    lemma_two_to_adds(274, 2);
    assert(two_to(22) == 0x40_0000 && two_to(2) == 4) by {
        reveal_with_fuel(two_to, 23);
    }
    lemma_two_to_monotone(274, 276);
    lemma_magnitude_increases(0, scale as int);
    assert(magnitude(0) == 0);
    let w = magnitude(abs_bits(value));
    let s = magnitude(scale as int);
    let r = magnitude(reciprocal(scale) as int);
    let u = two_to(276) as int;
    let h = two_to(274) as int;
    let a = two_to(125) as int;
    let b = two_to(149) as int;
    assert((0x100_0001 * a) * b == 0x100_0001 * (a * b)) by (nonlinear_arith);
    let p = s * r;
    // The bound on the product is 0x100_0001 * h.
    assert(u == 4 * h) by {
        assert(two_to(276) == 2 * two_to(275));
        assert(two_to(275) == 2 * two_to(274));
    }
    assert(two_to(298) == 0x40_0000 * u) by (nonlinear_arith)
        requires
            two_to(298) == u * two_to(22),
            two_to(22) == 0x40_0000,
    ;
    assert(w >= 0) by {
        if abs_bits(value) > 0 {
            lemma_magnitude_increases(0, abs_bits(value));
        }
    }
    if 0x40_0000 * (2 * w) > 0x40_0002 * s {
        assert((2 * w) * p >= (2 * w) * (0x3F_FFFF * u)) by (nonlinear_arith)
            requires
                p >= 0x3F_FFFF * u,
                w >= 0,
        ;
        assert((2 * w) * (0x3F_FFFF * u) > (0x100_0001 * h) * s) by (nonlinear_arith)
            requires
                0x40_0000 * (2 * w) > 0x40_0002 * s,
                u == 4 * h,
                h > 0,
                s > 0,
        ;
        assert((2 * w) * p == (2 * (w * r)) * s) by (nonlinear_arith)
            requires
                p == s * r,
        ;
        assert(2 * (w * r) > 0x100_0001 * h) by (nonlinear_arith)
            requires
                (2 * (w * r)) * s > (0x100_0001 * h) * s,
                s > 0,
        ;
    }
    if 0x40_0000 * (2 * w) <= 0x3F_FFFE * s {
        assert((2 * w) * p <= (2 * w) * (0x40_0001 * u)) by (nonlinear_arith)
            requires
                p <= 0x40_0001 * u,
                w >= 0,
        ;
        assert((2 * w) * (0x40_0001 * u) <= (0x100_0001 * h) * s) by (nonlinear_arith)
            requires
                0x40_0000 * (2 * w) <= 0x3F_FFFE * s,
                u == 4 * h,
                h > 0,
                s > 0,
        ;
        assert((2 * w) * p == (2 * (w * r)) * s) by (nonlinear_arith)
            requires
                p == s * r,
        ;
        assert(2 * (w * r) <= 0x100_0001 * h) by (nonlinear_arith)
            requires
                (2 * (w * r)) * s <= (0x100_0001 * h) * s,
                s > 0,
        ;
    }
}

/// The largest of the magnitudes of values, as unsigned bits: none that is a number
/// is above it, and it is the one of a value, or zero.
pub proof fn lemma_largest_is_largest(values: Seq<u32>)
    ensures
        forall|i: int|
            0 <= i < values.len() && #[trigger] values[i] % 0x8000_0000 <= 0x7F80_0000 ==> values[i]
                % 0x8000_0000 <= largest_bits(values),
        largest_bits(values) == 0 || exists|i: int|
            0 <= i < values.len() && #[trigger] values[i] % 0x8000_0000 == largest_bits(values),
        0 <= largest_bits(values) <= 0x7F80_0000,
    decreases values.len(),
{
    lemma_largest_range(values);
    if values.len() > 0 {
        let rest = values.drop_last();
        lemma_largest_is_largest(rest);
        assert forall|i: int|
            0 <= i < values.len() && #[trigger] values[i] % 0x8000_0000 <= 0x7F80_0000 implies values[i]
            % 0x8000_0000 <= largest_bits(values) by {
            if i < rest.len() {
                assert(rest[i] == values[i]);
            }
        }
        if largest_bits(values) != 0 {
            if largest_bits(values) == largest_bits(rest) {
                let i = choose|i: int|
                    0 <= i < rest.len() && #[trigger] rest[i] % 0x8000_0000 == largest_bits(rest);
                assert(values[i] % 0x8000_0000 == largest_bits(values));
            } else {
                assert(values[values.len() - 1] % 0x8000_0000 == largest_bits(values));
            }
        }
    }
}

/// The scale of values from `start` up to `end` is their largest magnitude, leaving
/// out what is no number, where that is above 1e-12; otherwise it is one.
pub proof fn law_scale_is_largest(values: &Vec<u32>, start: usize, end: usize, scale: u32)
    requires
        start <= end <= values@.len(),
        call_ensures(scale_of, (values, start, end), scale),
    ensures
        forall|i: int|
            start <= i < end && 0x2B8C_BCCC < #[trigger] values@[i] % 0x8000_0000 <= 0x7F80_0000
                ==> values@[i] % 0x8000_0000 <= scale,
        (exists|i: int|
            start <= i < end && 0x2B8C_BCCC < #[trigger] values@[i] % 0x8000_0000 <= 0x7F80_0000)
            ==> exists|i: int| start <= i < end && #[trigger] values@[i] % 0x8000_0000 == scale,
        (forall|i: int|
            start <= i < end ==> !(0x2B8C_BCCC < #[trigger] values@[i] % 0x8000_0000
                <= 0x7F80_0000)) ==> scale == 0x3F80_0000,
{
    let part = values@.subrange(start as int, end as int);
    lemma_largest_is_largest(part);
    assert forall|i: int| start <= i < end implies #[trigger] values@[i] == part[i - start] by {}
    if largest_bits(part) != 0 {
        let j = choose|j: int|
            0 <= j < part.len() && #[trigger] part[j] % 0x8000_0000 == largest_bits(part);
        assert(values@[start + j] == part[j]);
    }
    if exists|i: int|
        start <= i < end && 0x2B8C_BCCC < #[trigger] values@[i] % 0x8000_0000 <= 0x7F80_0000 {
        let i = choose|i: int|
            start <= i < end && 0x2B8C_BCCC < #[trigger] values@[i] % 0x8000_0000 <= 0x7F80_0000;
        assert(part[i - start] % 0x8000_0000 <= largest_bits(part));
    }
}

/// The single-precision bits of a half-precision value, by its exponent and fraction.
#[verifier::spinoff_prover]
#[verifier::rlimit(30)]
pub proof fn lemma_widened(h: u16)
    ensures
        ({
            let e = h as int / 0x400 % 32;
            let m = h as int % 0x400;
            let sign = if h >= 0x8000 {
                0x8000_0000int
            } else {
                0
            };
            let r = widened_half(h);
            &&& 1 <= e <= 30 ==> r == sign + (e + 112) * 0x80_0000 + m * 0x2000
            &&& e == 31 ==> r == sign + 0x7F80_0000 + m * 0x2000
            &&& e == 0 && m == 0 ==> r == sign
            &&& e == 0 && m != 0 ==> (r >= 0x8000_0000) == (sign != 0) && magnitude(
                r as int % 0x8000_0000,
            ) == m * two_to(125)
        }),
{
    let e = h as int / 0x400 % 32;
    let m = h as int % 0x400;
    let sign = if h >= 0x8000 {
        0x8000_0000int
    } else {
        0
    };
    if 1 <= e <= 30 {
        let bits = (e + 112) * 0x80_0000 + m * 0x2000;
        let r = (sign + bits) as u32;
        assert(exponent_of(bits) == e + 112);
        assert(fraction_of(bits) == m * 0x2000);
        lemma_two_to_adds((e + 111) as nat, 13);
        let p = two_to((e + 111) as nat) as int;
        lemma_powers();
        assert((0x80_0000 + m * 0x2000) * p == (0x400 + m) * (p * 0x2000)) by (nonlinear_arith);
        assert(abs_bits(r) == bits);
        assert(widens(h, r));
        lemma_widens_unique(h, r);
    } else if e == 0 && m != 0 {
        lemma_small_half_widens(h);
        let r = single_of_half(h);
        assert(widens(h, r));
    }
}

proof fn lemma_top_bit(m: nat) -> (k: nat)
    requires
        m > 0,
    ensures
        two_to(k) <= m < two_to(k + 1),
    decreases m,
{
    if m == 1 {
        assert(two_to(0) == 1);
        assert(two_to(1) == 2 * two_to(0));
        0
    } else {
        let j = lemma_top_bit(m / 2);
        assert(two_to(j + 1) == 2 * two_to(j));
        assert(two_to(j + 2) == 2 * two_to(j + 1));
        j + 1
    }
}

/// Every half-precision value under the normal range has a single-precision form.
#[verifier::spinoff_prover]
#[verifier::rlimit(30)]
proof fn lemma_small_half_widens(h: u16)
    requires
        h as int / 0x400 % 32 == 0,
        h as int % 0x400 != 0,
    ensures
        widens(h, single_of_half(h)),
{
    let m = h as int % 0x400;
    let k = lemma_top_bit(m as nat);
    assert(k <= 9) by {
        if k >= 10 {
            lemma_two_to_monotone(10, k);
            assert(two_to(10) == 0x400) by {
                reveal_with_fuel(two_to, 11);
            }
        }
    }
    let s = two_to((23 - k) as nat) as int;
    lemma_two_to_monotone((23 - k) as nat, (23 - k) as nat);
    lemma_two_to_adds(k, (23 - k) as nat);
    lemma_two_to_adds((k + 1) as nat, (23 - k) as nat);
    lemma_powers();
    assert(two_to(23) == 0x80_0000) by {
        reveal_with_fuel(two_to, 24);
    }
    let a = two_to(k) as int;
    let b = two_to((k + 1) as nat) as int;
    assert(0x80_0000 <= m * s < 0x100_0000) by (nonlinear_arith)
        requires
            a <= m < b,
            a * s == 0x80_0000,
            b * s == 0x100_0000,
            s > 0,
    ;
    let f = m * s - 0x80_0000;
    let bits = (103 + k) * 0x80_0000 + f;
    assert(exponent_of(bits) == 103 + k);
    assert(fraction_of(bits) == f);
    let t = two_to((102 + k) as nat) as int;
    lemma_two_to_adds((23 - k) as nat, (102 + k) as nat);
    assert((m * s) * t == m * (s * t)) by (nonlinear_arith);
    let r = (bits + if h >= 0x8000 {
        0x8000_0000int
    } else {
        0
    }) as u32;
    assert(abs_bits(r) == bits);
    assert(widens(h, r));
}

/// Under a finite scale, whether a value times one over the scale rounds to one goes by
/// half the scale, to within a part in two million.
#[verifier::spinoff_prover]
#[verifier::rlimit(30)]
pub proof fn lemma_rounding_by_half_scale(value: u32, scale: u32)
    requires
        0x80_0000 <= scale < 0x7F80_0000,
        abs_bits(value) < 0x7F80_0000,
    ensures
        0x40_0000 * (2 * magnitude(abs_bits(value))) > 0x40_0002 * magnitude(scale as int)
            ==> rounds_to_one(value, reciprocal(scale)),
        0x40_0000 * (2 * magnitude(abs_bits(value))) <= 0x3F_FFFE * magnitude(scale as int)
            ==> !rounds_to_one(value, reciprocal(scale)),
{
    lemma_digit_by_half_scale(value, scale);
    lemma_reciprocal_close(scale);
    lemma_half_point();
    lemma_half_above();
    lemma_two_to_adds(124, 149);
    lemma_two_to_adds(125, 149);
    lemma_two_to_adds(276, 22);
    lemma_two_to_adds(273, 3);
    assert(two_to(274) == 2 * two_to(273));
    assert(two_to(22) == 0x40_0000 && two_to(3) == 8) by {
        reveal_with_fuel(two_to, 23);
    }
    lemma_two_to_monotone(273, 276);
    lemma_magnitude_increases(0, scale as int);
    assert(magnitude(0) == 0);
    let w = magnitude(abs_bits(value));
    let s = magnitude(scale as int);
    let r = magnitude(reciprocal(scale) as int);
    let u = two_to(276) as int;
    let h = two_to(273) as int;
    let a = two_to(124) as int;
    let b = two_to(149) as int;
    let c = two_to(125) as int;
    assert(u == 8 * h) by {
        assert(two_to(276) == 2 * two_to(275));
        assert(two_to(275) == 2 * two_to(274));
    }
    assert(two_to(298) == 0x40_0000 * u) by (nonlinear_arith)
        requires
            two_to(298) == u * two_to(22),
            two_to(22) == 0x40_0000,
    ;
    assert((0x1FF_FFFF * a) * b == 0x1FF_FFFF * (a * b)) by (nonlinear_arith);
    assert((0x100_0001 * c) * b == 0x100_0001 * (c * b)) by (nonlinear_arith);
    let p = s * r;
    assert(w >= 0) by {
        if abs_bits(value) > 0 {
            lemma_magnitude_increases(0, abs_bits(value));
        }
    }
    if 0x40_0000 * (2 * w) <= 0x3F_FFFE * s {
        assert((2 * w) * p <= (2 * w) * (0x40_0001 * u)) by (nonlinear_arith)
            requires
                p <= 0x40_0001 * u,
                w >= 0,
        ;
        assert((2 * w) * (0x40_0001 * u) < (0x1FF_FFFF * h) * s) by (nonlinear_arith)
            requires
                0x40_0000 * (2 * w) <= 0x3F_FFFE * s,
                u == 8 * h,
                h > 0,
                s > 0,
        ;
        assert((2 * w) * p == (2 * (w * r)) * s) by (nonlinear_arith)
            requires
                p == s * r,
        ;
        assert(2 * (w * r) < 0x1FF_FFFF * h) by (nonlinear_arith)
            requires
                (2 * (w * r)) * s < (0x1FF_FFFF * h) * s,
                s > 0,
        ;
    }
}

/// The bits of a nearest half-precision value are 16 bits without a sign.
#[verifier::spinoff_prover]
pub proof fn lemma_nearest_half_range(bits: int)
    requires
        0 <= bits < 0x8000_0000,
    ensures
        0 <= nearest_half(bits) <= 0x7E00,
{
    let e = exponent_of(bits);
    let f = fraction_of(bits);
    if 102 <= e < 113 {
        let d = two_to((126 - e) as nat) as int;
        lemma_two_to_monotone(13, (126 - e) as nat);
        lemma_powers();
        assert(0 <= (0x80_0000 + f) / d <= (0x80_0000 + f) / 0x2000) by (nonlinear_arith)
            requires
                d >= 0x2000,
                0 <= f,
        ;
    }
}

/// The nearest half-precision value of a normal one is off by at most half of its last
/// place: its bits, shifted into place, are within 2^12 of the bits they stand for.
#[verifier::spinoff_prover]
pub proof fn law_half_is_nearest(x: u32, h: u16)
    requires
        call_ensures(to_nearest_half, (x,), h),
        0x3880_0000 <= x < 0x4780_0000,
    ensures
        -0x1000 <= h * 0x2000 - (x - 0x3800_0000) <= 0x1000,
{
    let e = exponent_of(x as int);
    let f = fraction_of(x as int);
    assert(113 <= e < 143);
    let n = (e - 112) * 0x80_0000 + f;
    assert(n == x - 0x3800_0000);
    assert(h == nearest_even(n, 0x2000));
}

/// Cutting to half precision keeps the sign, the exponent and the upper ten bits of the
/// fraction of a value in the normal half range; below it there is zero, above it
/// infinity.
pub proof fn law_half_cuts_the_fraction(x: u32, h: u16)
    requires
        call_ensures(f32_to_fp16_bits, (x,), h),
        x % 0x8000_0000 <= 0x7F80_0000,
    ensures
        (h >= 0x8000) == (x >= 0x8000_0000),
        ({
            let bits = x % 0x8000_0000;
            let low = h % 0x8000;
            &&& 0x3880_0000 <= bits < 0x4780_0000 ==> low * 0x2000 <= bits - 0x3800_0000 < low
                * 0x2000 + 0x2000
            &&& bits < 0x3880_0000 ==> low == 0
            &&& bits >= 0x4780_0000 ==> low == 0x7C00
        }),
{
    let bits = abs_bits(x);
    let e = exponent_of(bits);
    let f = fraction_of(bits);
    assert(bits == e * 0x80_0000 + f);
}

/// A block of 256 values is four digits to a byte, the first in the lowest bits: a value
/// of at least half the scale has digit 1, one of at most minus half of it digit 2, and
/// one between them, or that is no number, digit 0. The scale is the largest magnitude,
/// or one where that is tiny; its half-precision form is stored, the lower byte first.
#[verifier::spinoff_prover]
#[verifier::rlimit(30)]
pub proof fn law_block_digits_by_half_the_scale(
    block: &[u32; 256],
    r: ([u8; 2], [u8; 64]),
    i: int,
)
    requires
        call_ensures(ternary_quantize_block, (block,), r),
        0 <= i < 256,
    ensures
        ({
            let top = largest_bits(block@);
            let scale = if top > 0x2B8C_BCCC {
                top
            } else {
                0x3F80_0000
            };
            let unit = seq![1int, 4, 16, 64][i % 4];
            let digit = r.1@[i / 4] as int / unit % 4;
            let w = block@[i];
            &&& forall|j: int|
                0 <= j < 256 && #[trigger] block@[j] % 0x8000_0000 <= 0x7F80_0000 ==> block@[j]
                    % 0x8000_0000 <= top
            &&& top == 0 || exists|j: int| 0 <= j < 256 && #[trigger] block@[j] % 0x8000_0000 == top
            &&& digit == (if w % 0x8000_0000 > 0x7F80_0000 || scale == 0x7F80_0000 || 2 * magnitude(
                w as int % 0x8000_0000,
            ) < magnitude(scale) {
                0int
            } else if w >= 0x8000_0000 {
                2
            } else {
                1
            })
            &&& r.0@[0] + 0x100 * r.0@[1] == half_bits(scale as u32)
        }),
{
    lemma_largest_is_largest(block@);
    let scale = block_scale(block@);
    let j = i / 4;
    let a = ternary_digit(block@[4 * j], scale) as int;
    let b = ternary_digit(block@[4 * j + 1], scale) as int;
    let c = ternary_digit(block@[4 * j + 2], scale) as int;
    let d = ternary_digit(block@[4 * j + 3], scale) as int;
    let byte = r.1@[j] as int;
    assert(byte == a + 4 * b + 16 * c + 64 * d);
    assert(byte / 1 % 4 == a && byte / 4 % 4 == b && byte / 16 % 4 == c && byte / 64 % 4 == d);
    assert(i == 4 * j + i % 4);
    let h = half_bits(scale) as nat;
    wire::lemma_byte_ranges();
    wire::lemma_le_bytes_len(h, 2);
    wire::lemma_le_value_of_le_bytes(h, 2);
    wire::law_two_bytes_make_a_half(wire::le_bytes(h, 2));
}

/// A half-precision value keeps its sign and its value as it is widened: one with an
/// exponent stands for its fraction above a leading one, one without for its fraction
/// alone. What is no number gives one that is none, and infinities stay.
pub proof fn law_widening_keeps_the_value(h: u16, r: u32)
    requires
        call_ensures(half_to_single, (h,), r),
    ensures
        ({
            let e = h as int / 0x400 % 0x20;
            let f = h as int % 0x400;
            &&& 0 < e < 31 ==> magnitude(r as int % 0x8000_0000) == (0x400 + f) * pow2(
                (e + 124) as nat,
            ) && (r >= 0x8000_0000) == (h >= 0x8000)
            &&& e == 0 && f > 0 ==> magnitude(r as int % 0x8000_0000) == f * pow2(125) && (r
                >= 0x8000_0000) == (h >= 0x8000)
            &&& e == 0 && f == 0 ==> r == 0
            &&& e == 31 && f == 0 ==> r == (if h >= 0x8000 {
                0xFF80_0000u32
            } else {
                0x7F80_0000u32
            })
            &&& e == 31 && f > 0 ==> r == 0x7FC0_0000
        }),
{
    let e = h as int / 0x400 % 0x20;
    if 0 < e < 31 {
        lemma_two_to_is_pow2((e + 124) as nat);
    }
    lemma_two_to_is_pow2(125);
}

} // verus!
