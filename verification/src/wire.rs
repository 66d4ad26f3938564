//! Little-endian byte layouts.
//!
//! Every on-disk record of a compute image is a concatenation of unsigned
//! integers in little-endian order and of raw byte strings.  `le_bytes` and
//! `le_value` say what such an integer looks like as bytes and what number a
//! byte string denotes; the executable functions append and read them.

use vstd::arithmetic::div_mod::lemma_div_denominator;
use vstd::arithmetic::power::{lemma_pow0, lemma_pow_positive, pow};
use vstd::prelude::*;

verus! {

/// The `n` low-order base-256 digits of `x`, least significant first.
pub open spec fn le_bytes(x: nat, n: nat) -> Seq<u8>
    decreases n,
{
    if n == 0 {
        Seq::empty()
    } else {
        seq![(x % 256) as u8] + le_bytes(x / 256, (n - 1) as nat)
    }
}

/// The number whose base-256 digits, least significant first, are `s`.
pub open spec fn le_value(s: Seq<u8>) -> nat
    decreases s.len(),
{
    if s.len() == 0 {
        0
    } else {
        s[0] as nat + 256 * le_value(s.drop_first())
    }
}

/// 256 to the power `n`: how many numbers `n` bytes can tell apart.
pub open spec fn byte_range(n: nat) -> nat
    decreases n,
{
    if n == 0 {
        1
    } else {
        256 * byte_range((n - 1) as nat)
    }
}

pub proof fn lemma_byte_ranges()
    ensures
        byte_range(1) == 0x100,
        byte_range(2) == 0x1_0000,
        byte_range(4) == 0x1_0000_0000,
        byte_range(8) == 0x1_0000_0000_0000_0000,
{
    reveal_with_fuel(byte_range, 9);
}

pub proof fn lemma_le_bytes_len(x: nat, n: nat)
    ensures
        le_bytes(x, n).len() == n,
    decreases n,
{
    if n > 0 {
        lemma_le_bytes_len(x / 256, (n - 1) as nat);
    }
}

/// Reading back the little-endian bytes of a number that fits gives the number.
pub proof fn lemma_le_value_of_le_bytes(x: nat, n: nat)
    requires
        x < byte_range(n),
    ensures
        le_value(le_bytes(x, n)) == x,
    decreases n,
{
    if n > 0 {
        lemma_le_value_of_le_bytes(x / 256, (n - 1) as nat);
        assert(le_bytes(x, n).drop_first() =~= le_bytes(x / 256, (n - 1) as nat));
    }
}

/// Every byte string is the little-endian form of the number it denotes.
pub proof fn lemma_le_bytes_of_le_value(s: Seq<u8>)
    ensures
        le_bytes(le_value(s), s.len()) == s,
        le_value(s) < byte_range(s.len()),
    decreases s.len(),
{
    if s.len() > 0 {
        let rest = s.drop_first();
        lemma_le_bytes_of_le_value(rest);
        let v = le_value(s);
        assert(v % 256 == s[0] as nat);
        assert(v / 256 == le_value(rest));
        assert(seq![s[0]] + rest =~= s);
    }
}

/// Two numbers that fit and have the same little-endian bytes are the same.
pub proof fn lemma_le_bytes_injective(x: nat, y: nat, n: nat)
    requires
        x < byte_range(n),
        y < byte_range(n),
        le_bytes(x, n) == le_bytes(y, n),
    ensures
        x == y,
{
    lemma_le_value_of_le_bytes(x, n);
    lemma_le_value_of_le_bytes(y, n);
}

proof fn lemma_le_value_push(s: Seq<u8>, b: u8)
    ensures
        le_value(s.push(b)) == le_value(s) + byte_range(s.len()) * b,
    decreases s.len(),
{
    if s.len() == 0 {
        reveal_with_fuel(le_value, 3);
        assert(s.push(b).drop_first() =~= Seq::<u8>::empty());
        assert(le_value(s.push(b)) == b as nat);
        assert(byte_range(0) * b == b as nat) by (nonlinear_arith)
            requires
                byte_range(0) == 1,
        ;
    } else {
        lemma_le_value_push(s.drop_first(), b);
        assert(s.push(b).drop_first() =~= s.drop_first().push(b));
        let p = byte_range((s.len() - 1) as nat);
        assert(256 * (p * b) == (256 * p) * b) by (nonlinear_arith);
        assert(byte_range(s.len()) == 256 * p);
        assert(le_value(s) == s[0] as nat + 256 * le_value(s.drop_first()));
        assert(le_value(s.push(b)) == s[0] as nat + 256 * le_value(s.drop_first().push(b)));
    }
}

/// Appends the `n` little-endian bytes of `x`.
pub fn push_le(out: &mut Vec<u8>, x: u64, n: usize)
    ensures
        final(out)@ == old(out)@ + le_bytes(x as nat, n as nat),
{
    let mut rest: u64 = x;
    let mut left: usize = n;
    proof {
        assert(old(out)@ + le_bytes(x as nat, n as nat) =~= out@ + le_bytes(
            rest as nat,
            left as nat,
        ));
    }
    while left > 0
        invariant
            old(out)@ + le_bytes(x as nat, n as nat) == out@ + le_bytes(rest as nat, left as nat),
        decreases left,
    {
        let ghost before = out@;
        out.push((rest % 256) as u8);
        proof {
            let b = (rest % 256) as u8;
            assert(before + le_bytes(rest as nat, left as nat) =~= before.push(b) + le_bytes(
                rest as nat / 256,
                (left - 1) as nat,
            ));
        }
        rest = rest / 256;
        left = left - 1;
    }
    assert(out@ + le_bytes(rest as nat, 0) =~= out@);
}

/// Reads the `n` bytes at `off` as a little-endian number.
pub fn read_le(data: &[u8], off: usize, n: usize) -> (x: u64)
    requires
        n <= 8,
        off + n <= data.len(),
    ensures
        x as nat == le_value(data@.subrange(off as int, off + n)),
        (x as nat) < byte_range(n as nat),
{
    let mut value: u64 = 0;
    let mut place: u64 = 1;
    let mut i: usize = 0;
    assert(data@.subrange(off as int, off as int) =~= Seq::<u8>::empty());
    while i < n
        invariant
            i <= n <= 8,
            off + n <= data.len(),
            value as nat == le_value(data@.subrange(off as int, off + i)),
            (value as nat) < byte_range(i as nat),
            i < 8 ==> place as nat == byte_range(i as nat),
        decreases n - i,
    {
        let b: u8 = data[off + i];
        proof {
            let s = data@.subrange(off as int, off + i);
            lemma_le_value_push(s, b);
            assert(data@.subrange(off as int, off + i + 1) =~= s.push(b));
            reveal_with_fuel(byte_range, 9);
            assert(byte_range(8) == 0x1_0000_0000_0000_0000);
            lemma_byte_range_monotone((i + 1) as nat, 8);
            let p = byte_range(i as nat);
            assert(value + p * b < 256 * p) by (nonlinear_arith)
                requires
                    (value as nat) < p,
                    b < 256,
            ;
            assert(place * b == p * b);
        }
        value = value + place * (b as u64);
        proof {
            if i < 7 {
                lemma_byte_range_monotone((i + 1) as nat, 7);
                reveal_with_fuel(byte_range, 9);
            }
        }
        if i < 7 {
            place = place * 256;
        }
        i = i + 1;
    }
    value
}

proof fn lemma_byte_range_monotone(a: nat, b: nat)
    requires
        a <= b,
    ensures
        byte_range(a) <= byte_range(b),
        0 < byte_range(a),
    decreases b,
{
    if b > 0 && a < b {
        lemma_byte_range_monotone(a, (b - 1) as nat);
    } else if a > 0 {
        lemma_byte_range_monotone((a - 1) as nat, (a - 1) as nat);
    }
}

/// Appends `n` zero bytes.
pub fn push_zeros(out: &mut Vec<u8>, n: usize)
    ensures
        final(out)@ == old(out)@ + Seq::new(n as nat, |i: int| 0u8),
{
    let mut i: usize = 0;
    assert(out@ =~= old(out)@ + Seq::new(0, |i: int| 0u8));
    while i < n
        invariant
            i <= n,
            out@ == old(out)@ + Seq::new(i as nat, |j: int| 0u8),
        decreases n - i,
    {
        out.push(0);
        i = i + 1;
        assert(out@ =~= old(out)@ + Seq::new(i as nat, |j: int| 0u8));
    }
}

/// The eight bytes at `off`.
pub fn take8(data: &[u8], off: usize) -> (r: [u8; 8])
    requires
        off + 8 <= data.len(),
    ensures
        r@ == data@.subrange(off as int, off + 8),
{
    let mut r: [u8; 8] = [0u8; 8];
    let mut i: usize = 0;
    while i < 8
        invariant
            i <= 8,
            off + 8 <= data.len(),
            forall|j: int| 0 <= j < i ==> r@[j] == data@[off + j],
        decreases 8 - i,
    {
        r[i] = data[off + i];
        i = i + 1;
    }
    assert(r@ =~= data@.subrange(off as int, off + 8));
    r
}

/// The sixteen bytes at `off`.
pub fn take16(data: &[u8], off: usize) -> (r: [u8; 16])
    requires
        off + 16 <= data.len(),
    ensures
        r@ == data@.subrange(off as int, off + 16),
{
    let mut r: [u8; 16] = [0u8; 16];
    let mut i: usize = 0;
    while i < 16
        invariant
            i <= 16,
            off + 16 <= data.len(),
            forall|j: int| 0 <= j < i ==> r@[j] == data@[off + j],
        decreases 16 - i,
    {
        r[i] = data[off + i];
        i = i + 1;
    }
    assert(r@ =~= data@.subrange(off as int, off + 16));
    r
}

/// The thirty-two bytes at `off`.
pub fn take32(data: &[u8], off: usize) -> (r: [u8; 32])
    requires
        off + 32 <= data.len(),
    ensures
        r@ == data@.subrange(off as int, off + 32),
{
    let mut r: [u8; 32] = [0u8; 32];
    let mut i: usize = 0;
    while i < 32
        invariant
            i <= 32,
            off + 32 <= data.len(),
            forall|j: int| 0 <= j < i ==> r@[j] == data@[off + j],
        decreases 32 - i,
    {
        r[i] = data[off + i];
        i = i + 1;
    }
    assert(r@ =~= data@.subrange(off as int, off + 32));
    r
}

/// Reads the `n`-byte number at `off` as the continuation of the record that
/// starts at `base`: the record up to the end of the number is the record up to
/// its start, followed by its little-endian bytes.
pub fn field(data: &[u8], base: usize, off: usize, n: usize) -> (x: u64)
    requires
        n <= 8,
        base <= off,
        off + n <= data.len(),
    ensures
        (x as nat) < byte_range(n as nat),
        x as nat == le_value(data@.subrange(off as int, off + n)),
        data@.subrange(base as int, off + n) == data@.subrange(base as int, off as int) + le_bytes(
            x as nat,
            n as nat,
        ),
{
    let x: u64 = read_le(data, off, n);
    proof {
        let s = data@.subrange(off as int, off + n);
        lemma_le_bytes_of_le_value(s);
        assert(data@.subrange(base as int, off + n) =~= data@.subrange(base as int, off as int)
            + s);
    }
    x
}

// ---------------------------------------------------------------------------
// Laws
// ---------------------------------------------------------------------------

/// Byte `i` of a number counts 256 to the power `i`: the first is the lowest.
pub proof fn law_lowest_byte_first(x: nat, n: nat, i: nat)
    requires
        i < n,
    ensures
        le_bytes(x, n).len() == n,
        le_bytes(x, n)[i as int] as int == (x as int / pow(256, i)) % 256,
    decreases n,
{
    lemma_le_bytes_len(x, n);
    let rest = le_bytes(x / 256, (n - 1) as nat);
    lemma_pow0(256);
    if i == 0 {
        assert(le_bytes(x, n)[0] == (x % 256) as u8);
    } else {
        law_lowest_byte_first(x / 256, (n - 1) as nat, (i - 1) as nat);
        lemma_le_bytes_len(x / 256, (n - 1) as nat);
        assert(le_bytes(x, n)[i as int] == rest[i - 1]);
        let p = pow(256, (i - 1) as nat);
        lemma_pow_positive(256, (i - 1) as nat);
        assert(pow(256, i) == 256 * p) by {
            reveal(pow);
        }
        lemma_div_denominator(x as int, 256, p);
    }
}

/// The number that four bytes stand for, the first the lowest.
pub proof fn law_four_bytes_make_a_word(s: Seq<u8>)
    requires
        s.len() == 4,
    ensures
        le_value(s) == s[0] + 0x100 * s[1] + 0x1_0000 * s[2] + 0x100_0000 * s[3],
{
    let a = s.drop_first();
    let b = a.drop_first();
    let c = b.drop_first();
    let d = c.drop_first();
    assert(le_value(d) == 0);
    assert(le_value(c) == s[3]);
    assert(le_value(b) == s[2] + 256 * le_value(c));
    assert(le_value(a) == s[1] + 256 * le_value(b));
}

/// The number that two bytes stand for, the first the lower.
pub proof fn law_two_bytes_make_a_half(s: Seq<u8>)
    requires
        s.len() == 2,
    ensures
        le_value(s) == s[0] + 0x100 * s[1],
{
    let a = s.drop_first();
    let b = a.drop_first();
    assert(le_value(b) == 0);
    assert(le_value(a) == s[1]);
}

} // verus!
