//! Swizzled ternary re-pack for the ANE Planar Engine gather.
//!
//! A matrix of ternary digits is cut into 16x16 blocks, laid out row by row;
//! inside a block the digits follow each other row by row, four to a byte, the
//! first with weight 1 and the others with weights 3, 9 and 27.

use vstd::arithmetic::div_mod::*;
use vstd::arithmetic::power::{lemma_pow0, pow};
use vstd::prelude::*;

use crate::float_bits;
use crate::wire;

verus! {

/// Where the digit at (row, col) stands among the digits of a swizzled buffer
/// whose rows are `width` digits wide.
pub open spec fn swizzle_index(row: int, col: int, width: int) -> int {
    ((row / 16) * (width / 16) + col / 16) * 256 + (row % 16) * 16 + col % 16
}

/// How many 16-wide blocks cover `n`.
pub open spec fn blocks(n: int) -> int {
    (n + 15) / 16
}

/// Bytes of the swizzled form of a `rows` by `cols` matrix.
pub open spec fn swizzled_size(rows: int, cols: int) -> int {
    blocks(rows) * blocks(cols) * 64
}

/// Map linear (row, col) to (byte_offset, slot_within_byte).
#[inline(always)]
pub fn swizzled_byte_offset(row: usize, col: usize, width: usize) -> (r: (usize, usize))
    requires
        swizzle_index(row as int, col as int, width as int) / 4 <= usize::MAX,
    ensures
        r.0 == swizzle_index(row as int, col as int, width as int) / 4,
        r.1 == swizzle_index(row as int, col as int, width as int) % 4,
{
    let bpr: usize = width / 16;
    let br: usize = row / 16;
    let bc: usize = col / 16;
    proof {
        assert(0 <= br * bpr) by (nonlinear_arith)
            requires
                0 <= br,
                0 <= bpr,
        ;
    }
    let bi: usize = br * bpr + bc;
    let ir: usize = row % 16;
    let ic: usize = col % 16;
    let ii: usize = ir * 16 + ic;
    (bi * 64 + ii / 4, ii % 4)
}

fn block_count(n: usize) -> (r: usize)
    ensures
        r == blocks(n as int),
{
    if n % 16 == 0 {
        n / 16
    } else {
        n / 16 + 1
    }
}

/// Size of swizzled u8 buffer for tensor shape.
pub fn swizzled_buffer_size(rows: usize, cols: usize) -> (r: usize)
    requires
        swizzled_size(rows as int, cols as int) <= usize::MAX,
    ensures
        r == swizzled_size(rows as int, cols as int),
{
    let a: usize = block_count(rows);
    let b: usize = block_count(cols);
    proof {
        assert(0 <= a * b) by (nonlinear_arith)
            requires
                0 <= a,
                0 <= b,
        ;
    }
    a * b * 64
}

/// Three to the power `n`.
pub open spec fn three_to(n: nat) -> nat
    decreases n,
{
    if n == 0 {
        1
    } else {
        3 * three_to((n - 1) as nat)
    }
}

/// The `i`-th base-3 digit of `word`, least significant first.
pub open spec fn trit(word: nat, i: nat) -> nat {
    (word / three_to(i)) % 3
}

pub proof fn lemma_three_to_pos(n: nat)
    ensures
        three_to(n) > 0,
    decreases n,
{
    if n > 0 {
        lemma_three_to_pos((n - 1) as nat);
    }
}

/// Dropping the lowest digit moves the others down by one.
pub proof fn lemma_trit_shift(word: nat, i: nat)
    ensures
        trit(word / 3, i) == trit(word, i + 1),
        trit(word, 0) == word % 3,
{
    lemma_three_to_pos(i);
    lemma_div_denominator(word as int, 3, three_to(i) as int);
    assert(three_to(i + 1) == 3 * three_to(i));
    assert(word / 1 == word);
}

/// Decode a u32 base-3 pack into an array of 20 ternary digits [0..2].
pub fn decode_ternary_u32(packed: u32, digits: &mut [u8; 20])
    ensures
        forall|i: int|
            0 <= i < 20 ==> #[trigger] final(digits)@[i] == trit(packed as nat, i as nat),
{
    let mut rem: u32 = packed;
    let mut i: usize = 0;
    while i < 20
        invariant
            i <= 20,
            forall|j: nat| #[trigger] trit(rem as nat, j) == trit(packed as nat, i as nat + j),
            forall|j: int| 0 <= j < i ==> #[trigger] digits@[j] == trit(packed as nat, j as nat),
        decreases 20 - i,
    {
        proof {
            lemma_trit_shift(rem as nat, 0);
            assert(trit(rem as nat, 0) == trit(packed as nat, i as nat));
        }
        digits[i] = (rem % 3) as u8;
        proof {
            assert forall|j: nat| #[trigger]
                trit(rem as nat / 3, j) == trit(packed as nat, (i + 1) as nat + j) by {
                lemma_trit_shift(rem as nat, j);
                assert(trit(rem as nat, j + 1) == trit(packed as nat, i as nat + (j + 1)));
            }
        }
        rem = rem / 3;
        i = i + 1;
    }
}

/// The digit that ends up at position `at` of the swizzled buffer when the
/// digits of a matrix `cols` wide are put in place one after the other: the
/// last one that belongs there, or zero.  `None` marks a digit that is missing.
pub open spec fn digit_at(digits: Seq<Option<u8>>, cols: int, width: int, at: int) -> u8
    decreases digits.len(),
{
    if digits.len() == 0 {
        0
    } else {
        let k = digits.len() - 1;
        match digits.last() {
            Some(d) if swizzle_index(k / cols, k % cols, width) == at => d,
            _ => digit_at(digits.drop_last(), cols, width, at),
        }
    }
}

/// How many of the digits belong into byte `byte`.
pub open spec fn fill_count(digits: Seq<Option<u8>>, cols: int, width: int, byte: int) -> nat
    decreases digits.len(),
{
    if digits.len() == 0 {
        0
    } else {
        let k = digits.len() - 1;
        let rest = fill_count(digits.drop_last(), cols, width, byte);
        if digits.last() is Some && swizzle_index(k / cols, k % cols, width) / 4 == byte {
            rest + 1
        } else {
            rest
        }
    }
}

/// One slot of a byte: its digit, or zero where fewer digits came in.
pub open spec fn slot_digit(
    digits: Seq<Option<u8>>,
    cols: int,
    width: int,
    byte: int,
    slot: int,
) -> int {
    if slot < fill_count(digits, cols, width, byte) {
        digit_at(digits, cols, width, 4 * byte + slot) as int
    } else {
        0
    }
}

/// A byte of the swizzled buffer: four base-3 digits.
pub open spec fn packed_byte(digits: Seq<Option<u8>>, cols: int, width: int, byte: int) -> int {
    slot_digit(digits, cols, width, byte, 0) + 3 * slot_digit(digits, cols, width, byte, 1) + 9
        * slot_digit(digits, cols, width, byte, 2) + 27 * slot_digit(digits, cols, width, byte, 3)
}

pub open spec fn all_ternary(digits: Seq<Option<u8>>) -> bool {
    forall|k: int| 0 <= k < digits.len() ==> (#[trigger] digits[k] matches Some(d) ==> d <= 2)
}

/// A buffer in the making: the digits of every slot and how many came in.
struct Sink {
    slots: Vec<u8>,
    fill: Vec<u8>,
}

impl Sink {
    spec fn holds(self, size: int, digits: Seq<Option<u8>>, cols: int, width: int) -> bool {
        &&& self.slots@.len() == 4 * size
        &&& self.fill@.len() == size
        &&& forall|i: int|
            0 <= i < 4 * size ==> #[trigger] self.slots@[i] == digit_at(digits, cols, width, i)
                && self.slots@[i] <= 2
        &&& forall|b: int|
            0 <= b < size ==> #[trigger] self.fill@[b] == (if fill_count(digits, cols, width, b)
                >= 4 {
                4
            } else {
                fill_count(digits, cols, width, b) as int
            })
    }

    fn new(size: usize, cols: Ghost<int>, width: Ghost<int>) -> (r: Self)
        requires
            4 * size <= usize::MAX,
        ensures
            r.holds(size as int, Seq::empty(), cols@, width@),
    {
        Sink { slots: vec![0u8; 4 * size], fill: vec![0u8; size] }
    }

    fn put(
        &mut self,
        row: usize,
        col: usize,
        width: usize,
        digit: u8,
        digits: Ghost<Seq<Option<u8>>>,
        cols: Ghost<int>,
    )
        requires
            digit <= 2,
            swizzle_index(row as int, col as int, width as int) / 4 <= usize::MAX,
            0 <= swizzle_index(row as int, col as int, width as int),
            digits@.len() as int / cols@ == row,
            digits@.len() as int % cols@ == col,
            4 * old(self).fill@.len() <= usize::MAX,
            old(self).holds(old(self).fill@.len() as int, digits@, cols@, width as int),
        ensures
            final(self).fill@.len() == old(self).fill@.len(),
            final(self).holds(
                final(self).fill@.len() as int,
                digits@.push(Some(digit)),
                cols@,
                width as int,
            ),
    {
        let ghost size = self.fill@.len() as int;
        let (byte, slot) = swizzled_byte_offset(row, col, width);
        let ghost next = digits@.push(Some(digit));
        proof {
            assert(next.drop_last() =~= digits@);
            assert(next.last() == Some(digit));
        }
        if byte < self.fill.len() {
            self.slots[4 * byte + slot] = digit;
            if self.fill[byte] < 4 {
                self.fill[byte] = self.fill[byte] + 1;
            }
        }
        proof {
            let at = swizzle_index(row as int, col as int, width as int);
            assert forall|i: int| 0 <= i < 4 * size implies #[trigger] self.slots@[i] == digit_at(
                next,
                cols@,
                width as int,
                i,
            ) && self.slots@[i] <= 2 by {
                assert(i == at ==> i == 4 * byte + slot);
            }
        }
    }

    /// Counts a missing digit.
    proof fn skip(self, size: int, digits: Seq<Option<u8>>, cols: int, width: int)
        requires
            self.holds(size, digits, cols, width),
        ensures
            self.holds(size, digits.push(None), cols, width),
    {
        let next = digits.push(None::<u8>);
        assert(next.drop_last() =~= digits);
        assert forall|i: int| 0 <= i < 4 * size implies #[trigger] self.slots@[i] == digit_at(
            next,
            cols,
            width,
            i,
        ) && self.slots@[i] <= 2 by {}
        assert forall|b: int| 0 <= b < size implies fill_count(next, cols, width, b) == fill_count(
            digits,
            cols,
            width,
            b,
        ) by {}
    }

    /// The byte that the slots of `byte` make up.
    fn byte(
        &self,
        byte: usize,
        digits: Ghost<Seq<Option<u8>>>,
        cols: Ghost<int>,
        width: Ghost<int>,
    ) -> (r: u8)
        requires
            byte < self.fill@.len(),
            4 * self.fill@.len() <= usize::MAX,
            self.holds(self.fill@.len() as int, digits@, cols@, width@),
        ensures
            r == packed_byte(digits@, cols@, width@, byte as int),
            r < 81,
    {
        let n: u8 = self.fill[byte];
        let q0: u8 = if n > 0 {
            self.slots[4 * byte]
        } else {
            0
        };
        let q1: u8 = if n > 1 {
            self.slots[4 * byte + 1]
        } else {
            0
        };
        let q2: u8 = if n > 2 {
            self.slots[4 * byte + 2]
        } else {
            0
        };
        let q3: u8 = if n > 3 {
            self.slots[4 * byte + 3]
        } else {
            0
        };
        q0 + 3 * q1 + 9 * q2 + 27 * q3
    }
}

proof fn lemma_cell(row: int, col: int, cols: int)
    requires
        0 <= col < cols,
        0 <= row,
    ensures
        (row * cols + col) / cols == row,
        (row * cols + col) % cols == col,
{
    lemma_fundamental_div_mod_converse(row * cols + col, cols, row, col);
}

/// Every digit of a matrix as wide as the buffer lands inside the buffer.
proof fn lemma_inside(row: int, col: int, rows: int, cols: int)
    requires
        0 <= row < rows,
        0 <= col < cols,
    ensures
        0 <= swizzle_index(row, col, cols),
        swizzle_index(row, col, cols) / 4 < swizzled_size(rows, cols),
{
    let br = row / 16;
    let bc = col / 16;
    let bpr = cols / 16;
    let r = blocks(rows);
    let c = blocks(cols);
    assert(0 <= br <= r - 1);
    assert(0 <= bc <= c - 1);
    assert(0 <= bpr <= c);
    assert(0 <= br * bpr + bc <= r * c - 1) by (nonlinear_arith)
        requires
            0 <= br <= r - 1,
            0 <= bc <= c - 1,
            0 <= bpr <= c,
    ;
}

proof fn lemma_size_small(rows: int, cols: int)
    requires
        0 <= rows,
        0 <= cols,
    ensures
        0 <= swizzled_size(rows, cols),
        rows * cols <= 4 * swizzled_size(rows, cols),
{
    let r = blocks(rows);
    let c = blocks(cols);
    assert(0 <= r * c) by (nonlinear_arith)
        requires
            0 <= r,
            0 <= c,
    ;
    assert(rows * cols <= (16 * r) * (16 * c)) by (nonlinear_arith)
        requires
            0 <= rows <= 16 * r,
            0 <= cols <= 16 * c,
    ;
    assert((16 * r) * (16 * c) == 256 * (r * c)) by (nonlinear_arith);
}

/// u32 words per row of the tile640 format: 32 lanes of 20 digits per tile.
pub open spec fn words_per_row(cols: int) -> int {
    ((cols + 639) / 640) * 32
}

/// The digit at (row, col) of a matrix in tile640 format, if its word is there.
pub open spec fn tile_digit(packed: Seq<u8>, cols: int, row: int, col: int) -> Option<u8> {
    let word = row * words_per_row(cols) + col / 20;
    if 4 * word + 4 <= packed.len() {
        Some(
            trit(wire::le_value(packed.subrange(4 * word, 4 * word + 4)), (col % 20) as nat) as u8,
        )
    } else {
        None
    }
}

/// All the digits of a tile640 matrix, row by row.
pub open spec fn tile_digits(packed: Seq<u8>, rows: int, cols: int) -> Seq<Option<u8>> {
    Seq::new((rows * cols) as nat, |k: int| tile_digit(packed, cols, k / cols, k % cols))
}

/// What becomes of a buffer that digits in tile640 format are swizzled into: one
/// that is too small is left alone, and a larger one keeps its tail.
pub open spec fn is_repacked(
    before: Seq<u8>,
    after: Seq<u8>,
    packed: Seq<u8>,
    rows: int,
    cols: int,
    width: int,
) -> bool {
    &&& after.len() == before.len()
    &&& before.len() < swizzled_size(rows, cols) ==> after == before
    &&& before.len() >= swizzled_size(rows, cols) ==> forall|b: int|
        0 <= b < before.len() ==> #[trigger] after[b] == (if b < swizzled_size(rows, cols) {
            packed_byte(tile_digits(packed, rows, cols), cols, width, b)
        } else {
            before[b] as int
        })
}

/// Re-pack ternary u32 packs from DRAM into 16x16 swizzled u8 in SLC.
///
/// The ternary data uses the tile640 format: u32s at
///   offset = (row x num_tiles x 32 + tile x 32 + lane) x 4
/// Each u32 encodes 20 ternary values in base-3: digit 0 is 0, 1 is +1, 2 is -1.
///
/// The ANE reads the swizzled u8 from SLC and expands each quartet to
/// 4 INT8 values via the `gather` LUT (shape [81, 4]).  The scale
/// multiply also happens at gather time.
///
/// A buffer that is too small is left alone; a larger one keeps its tail.
pub fn repack_ternary_to_swizzled_u8(
    ternary_bytes: &[u8],
    rows: usize,
    cols: usize,
    slc_buf: &mut [u8],
    slc_width: usize,
)
    requires
        4 * swizzled_size(rows as int, cols as int) <= usize::MAX,
        4 * (rows * words_per_row(cols as int)) <= usize::MAX,
        ((rows as int / 16) * (slc_width as int / 16) + cols as int / 16 + 1) * 64 <= usize::MAX,
    ensures
        is_repacked(
            old(slc_buf)@,
            final(slc_buf)@,
            ternary_bytes@,
            rows as int,
            cols as int,
            slc_width as int,
        ),
{
    let ghost all = tile_digits(ternary_bytes@, rows as int, cols as int);
    proof {
        lemma_size_small(rows as int, cols as int);
    }
    let expected: usize = swizzled_buffer_size(rows, cols);
    if slc_buf.len() < expected {
        return;
    }
    let mut sink: Sink = Sink::new(expected, Ghost(cols as int), Ghost(slc_width as int));
    let tiles: usize = if cols % 640 == 0 {
        cols / 640
    } else {
        cols / 640 + 1
    };
    let mut row: usize = 0;
    proof {
        assert(tiles == (cols + 639) / 640);
        assert(0 * cols == 0);
        assert(all.take(0) =~= Seq::empty());
        assert(0 <= rows * cols) by (nonlinear_arith)
            requires
                0 <= rows,
                0 <= cols,
        ;
    }
    while row < rows
        invariant
            row <= rows,
            tiles == (cols + 639) / 640,
            all == tile_digits(ternary_bytes@, rows as int, cols as int),
            4 * (rows * words_per_row(cols as int)) <= usize::MAX,
            ((rows as int / 16) * (slc_width as int / 16) + cols as int / 16 + 1) * 64 <= usize::MAX,
            4 * expected <= usize::MAX,
            sink.fill@.len() == expected,
            sink.holds(expected as int, all.take(row * cols), cols as int, slc_width as int),
        decreases rows - row,
    {
        let mut col: usize = 0;
        while col < cols
            invariant
                row < rows,
                col <= cols,
                col % 20 == 0 || col == cols,
                tiles == (cols + 639) / 640,
                all == tile_digits(ternary_bytes@, rows as int, cols as int),
                4 * (rows * words_per_row(cols as int)) <= usize::MAX,
                ((rows as int / 16) * (slc_width as int / 16) + cols as int / 16 + 1) * 64 <= usize::MAX,
                4 * expected <= usize::MAX,
                sink.fill@.len() == expected,
                sink.holds(
                    expected as int,
                    all.take(row * cols + col),
                    cols as int,
                    slc_width as int,
                ),
            decreases cols - col,
        {
            let ghost wpr = words_per_row(cols as int);
            let ghost word = row * wpr + col / 20;
            proof {
                assert(col / 20 < wpr);
                assert(row * wpr + wpr <= rows * wpr) by (nonlinear_arith)
                    requires
                        row + 1 <= rows,
                        0 <= wpr,
                ;
                assert(0 <= row * wpr) by (nonlinear_arith)
                    requires
                        0 <= row,
                        0 <= wpr,
                ;
                assert(row * (tiles * 32) == row * wpr);
                assert((row * tiles) * 32 == row * (tiles * 32)) by (nonlinear_arith);
                assert(0 <= row * tiles) by (nonlinear_arith)
                    requires
                        0 <= row,
                        0 <= tiles,
                ;
            }
            let at: usize = (row * tiles * 32 + col / 20) * 4;
            let present: bool = at <= ternary_bytes.len() && ternary_bytes.len() - at >= 4;
            let mut rem: u64 = if present {
                wire::read_le(ternary_bytes, at, 4)
            } else {
                0
            };
            let ghost packed = rem;
            let start: usize = col;
            let mut vi: usize = 0;
            while vi < 20 && col < cols
                invariant
                    row < rows,
                    start < cols,
                    start % 20 == 0,
                    vi <= 20,
                    col == start + vi,
                    col <= cols,
                    wpr == words_per_row(cols as int),
                    word == row * wpr + start / 20,
                    at == 4 * word,
                    present == (4 * word + 4 <= ternary_bytes@.len()),
                    present ==> packed as nat == wire::le_value(
                        ternary_bytes@.subrange(4 * word, 4 * word + 4),
                    ),
                    forall|j: nat|
                        #[trigger] trit(rem as nat, j) == trit(packed as nat, vi as nat + j),
                    all == tile_digits(ternary_bytes@, rows as int, cols as int),
                    ((rows as int / 16) * (slc_width as int / 16) + cols as int / 16 + 1) * 64 <= usize::MAX,
                    4 * expected <= usize::MAX,
                    sink.fill@.len() == expected,
                    sink.holds(
                        expected as int,
                        all.take(row * cols + col),
                        cols as int,
                        slc_width as int,
                    ),
                decreases 20 - vi,
            {
                let digit: u8 = (rem % 3) as u8;
                let ghost k = row * cols + col;
                proof {
                    lemma_cell(row as int, col as int, cols as int);
                    lemma_trit_shift(rem as nat, 0);
                    assert(trit(rem as nat, 0) == trit(packed as nat, vi as nat));
                    assert(col / 20 == start / 20);
                    assert(col % 20 == vi);
                    assert(k < rows * cols) by (nonlinear_arith)
                        requires
                            k == row * cols + col,
                            row + 1 <= rows,
                            col < cols,
                    ;
                    assert(0 <= k) by (nonlinear_arith)
                        requires
                            k == row * cols + col,
                            0 <= row,
                            0 <= col,
                            0 <= cols,
                    ;
                    assert(all[k] == tile_digit(
                        ternary_bytes@,
                        cols as int,
                        row as int,
                        col as int,
                    ));
                    assert(all.take(k + 1) =~= all.take(k).push(all[k]));
                    lemma_index_monotone(
                        row as int,
                        col as int,
                        rows as int,
                        cols as int,
                        slc_width as int,
                    );
                }
                if present {
                    assert(all[k] == Some(digit));
                    sink.put(row, col, slc_width, digit, Ghost(all.take(k)), Ghost(cols as int));
                } else {
                    proof {
                        assert(all[k] is None);
                        sink.skip(expected as int, all.take(k), cols as int, slc_width as int);
                    }
                }
                proof {
                    assert forall|j: nat| #[trigger]
                        trit(rem as nat / 3, j) == trit(packed as nat, (vi + 1) as nat + j) by {
                        lemma_trit_shift(rem as nat, j);
                        assert(trit(rem as nat, j + 1) == trit(packed as nat, vi as nat + (j + 1)));
                    }
                }
                rem = rem / 3;
                vi = vi + 1;
                col = col + 1;
            }
        }
        proof {
            assert((row + 1) * cols == row * cols + cols) by (nonlinear_arith);
        }
        row = row + 1;
    }
    assert(all.take(rows * cols) =~= all);
    write_out(&sink, expected, slc_buf, Ghost(all), Ghost(cols as int), Ghost(slc_width as int));
}

#[verifier::spinoff_prover]
#[verifier::rlimit(40)]
proof fn lemma_index_monotone(row: int, col: int, rows: int, cols: int, width: int)
    requires
        0 <= row < rows,
        0 <= col < cols,
        0 <= width,
    ensures
        0 <= swizzle_index(row, col, width),
        swizzle_index(row, col, width) / 4 < ((rows / 16) * (width / 16) + cols / 16 + 1) * 64,
{
    let a = row / 16;
    let b = rows / 16;
    let w = width / 16;
    assert(0 <= a * w <= b * w) by (nonlinear_arith)
        requires
            0 <= a <= b,
            0 <= w,
    ;
}

fn write_out(
    sink: &Sink,
    size: usize,
    out: &mut [u8],
    digits: Ghost<Seq<Option<u8>>>,
    cols: Ghost<int>,
    width: Ghost<int>,
)
    requires
        size <= old(out).len(),
        4 * size <= usize::MAX,
        sink.fill@.len() == size,
        sink.holds(size as int, digits@, cols@, width@),
    ensures
        final(out)@.len() == old(out)@.len(),
        forall|b: int|
            0 <= b < old(out)@.len() ==> #[trigger] final(out)@[b] == (if b < size {
                packed_byte(digits@, cols@, width@, b)
            } else {
                old(out)@[b] as int
            }),
{
    let mut b: usize = 0;
    while b < size
        invariant
            b <= size <= out.len(),
            out@.len() == old(out)@.len(),
            4 * size <= usize::MAX,
            sink.fill@.len() == size,
            sink.holds(size as int, digits@, cols@, width@),
            forall|j: int|
                0 <= j < out@.len() ==> #[trigger] out@[j] == (if j < b {
                    packed_byte(digits@, cols@, width@, j)
                } else {
                    old(out)@[j] as int
                }),
        decreases size - b,
    {
        out[b] = sink.byte(b, digits, cols, width);
        b = b + 1;
    }
}

/// The two-byte floating point formats that weights and caches arrive in.
#[derive(Debug, Clone, Copy, PartialEq, Eq, Structural)]
pub enum HalfFormat {
    Bfloat16,
    Float16,
}

/// Single-precision bits of the two-byte value `h`.
pub open spec fn single_value(format: HalfFormat, h: u16) -> u32 {
    match format {
        HalfFormat::Bfloat16 => (h * 0x1_0000) as u32,
        HalfFormat::Float16 => float_bits::single_of_half(h),
    }
}

/// The `k`-th value of a byte string of two-byte values; zero behind its end.
pub open spec fn value_at(raw: Seq<u8>, format: HalfFormat, k: int) -> u32 {
    if 2 * k + 1 < raw.len() {
        single_value(format, (raw[2 * k] + 256 * raw[2 * k + 1]) as u16)
    } else {
        0
    }
}

/// The `block`-th run of 256 values out of `total`, filled up with zeros.
pub open spec fn block_values(
    raw: Seq<u8>,
    format: HalfFormat,
    total: int,
    block: int,
) -> Seq<u32> {
    Seq::new(
        256,
        |j: int|
            if 256 * block + j < total {
                value_at(raw, format, 256 * block + j)
            } else {
                0
            },
    )
}

/// The ternary digit of the `k`-th value under the scale of its block.
pub open spec fn quantized_digit(raw: Seq<u8>, format: HalfFormat, total: int, k: int) -> u8 {
    let values = block_values(raw, format, total, k / 256);
    float_bits::ternary_digit(values[k % 256], float_bits::block_scale(values))
}

/// The ternary digits of `total` values.
pub open spec fn quantized_digits(raw: Seq<u8>, format: HalfFormat, total: int) -> Seq<
    Option<u8>,
> {
    Seq::new(total as nat, |k: int| Some(quantized_digit(raw, format, total, k)))
}

fn load_block(raw: &[u8], format: HalfFormat, total: usize, block: usize) -> (r: [u32; 256])
    requires
        256 * block < total,
    ensures
        r@ == block_values(raw@, format, total as int, block as int),
{
    let mut r: [u32; 256] = [0u32; 256];
    let mut j: usize = 0;
    while j < 256 && j < total - 256 * block
        invariant
            j <= 256,
            256 * block < total,
            j <= total - 256 * block,
            forall|i: int|
                0 <= i < 256 ==> #[trigger] r@[i] == (if i < j {
                    value_at(raw@, format, 256 * block + i)
                } else {
                    0
                }),
        decreases 256 - j,
    {
        let k: usize = 256 * block + j;
        if k < raw.len() / 2 {
            let low: u8 = raw[2 * k];
            let high: u8 = raw[2 * k + 1];
            r[j] = match format {
                HalfFormat::Bfloat16 => (low as u32 + 256 * (high as u32)) * 0x1_0000,
                HalfFormat::Float16 => float_bits::fp16_to_f32([low, high]),
            };
        }
        j = j + 1;
    }
    assert(r@ =~= block_values(raw@, format, total as int, block as int));
    r
}

/// The `j`-th of four two-bit codes in a byte.
fn crumb(b: u8, j: usize) -> (r: u8)
    requires
        j < 4,
    ensures
        forall|c0: u8, c1: u8, c2: u8, c3: u8|
            c0 < 4 && c1 < 4 && c2 < 4 && c3 < 4 && b == #[trigger] (c0 + 4 * c1 + 16 * c2 + 64
                * c3) ==> r == seq![c0, c1, c2, c3][j as int],
{
    if j == 0 {
        b % 4
    } else if j == 1 {
        (b / 4) % 4
    } else if j == 2 {
        (b / 16) % 4
    } else {
        b / 64
    }
}

fn swizzle_values(raw: &[u8], format: HalfFormat, rows: usize, cols: usize, size: usize) -> (r:
    Sink)
    requires
        cols > 0,
        size == swizzled_size(rows as int, cols as int),
        4 * size <= usize::MAX,
    ensures
        r.fill@.len() == size,
        r.holds(
            size as int,
            quantized_digits(raw@, format, rows * cols),
            cols as int,
            cols as int,
        ),
{
    proof {
        lemma_size_small(rows as int, cols as int);
        assert(0 <= rows * cols) by (nonlinear_arith)
            requires
                0 <= rows,
                0 <= cols,
        ;
    }
    let total: usize = rows * cols;
    let ghost all = quantized_digits(raw@, format, total as int);
    let mut sink: Sink = Sink::new(size, Ghost(cols as int), Ghost(cols as int));
    let mut block: usize = 0;
    let mut k: usize = 0;
    assert(all.take(0) =~= Seq::empty());
    while k < total
        invariant
            k <= total,
            total == rows * cols,
            cols > 0,
            k == 256 * block || k == total,
            size == swizzled_size(rows as int, cols as int),
            4 * size <= usize::MAX,
            all == quantized_digits(raw@, format, total as int),
            sink.fill@.len() == size,
            sink.holds(size as int, all.take(k as int), cols as int, cols as int),
        decreases total - k,
    {
        let values: [u32; 256] = load_block(raw, format, total, block);
        let (_scale, codes) = float_bits::ternary_quantize_block(&values);
        let mut j: usize = 0;
        while j < 256 && k < total
            invariant
                j <= 256,
                k <= total,
                k == 256 * block + j,
                total == rows * cols,
                cols > 0,
                size == swizzled_size(rows as int, cols as int),
                4 * size <= usize::MAX,
                values@ == block_values(raw@, format, total as int, block as int),
                forall|i: int|
                    0 <= i < 64 ==> #[trigger] codes@[i] == float_bits::crumbs(
                        values@,
                        float_bits::block_scale(values@),
                        i,
                    ),
                all == quantized_digits(raw@, format, total as int),
                sink.fill@.len() == size,
                sink.holds(size as int, all.take(k as int), cols as int, cols as int),
            decreases 256 - j,
        {
            let d: u8 = crumb(codes[j / 4], j % 4);
            let row: usize = k / cols;
            let col: usize = k % cols;
            proof {
                let i = j as int / 4;
                let scale = float_bits::block_scale(values@);
                assert(codes@[i] == float_bits::crumbs(values@, scale, i));
                let c0 = float_bits::ternary_digit(values@[4 * i], scale);
                let c1 = float_bits::ternary_digit(values@[4 * i + 1], scale);
                let c2 = float_bits::ternary_digit(values@[4 * i + 2], scale);
                let c3 = float_bits::ternary_digit(values@[4 * i + 3], scale);
                assert(codes@[i] == c0 + 4 * c1 + 16 * c2 + 64 * c3);
                assert(d == seq![c0, c1, c2, c3][j as int % 4]);
                assert(d == float_bits::ternary_digit(values@[j as int], scale));
                assert(k as int / 256 == block && k as int % 256 == j);
                assert(all[k as int] == Some(d));
                assert(all.take(k + 1) =~= all.take(k as int).push(all[k as int]));
                lemma_fundamental_div_mod(k as int, cols as int);
                assert(row < rows) by (nonlinear_arith)
                    requires
                        k < rows * cols,
                        k == cols * row + col,
                        0 <= col,
                        cols > 0,
                ;
                lemma_inside(row as int, col as int, rows as int, cols as int);
            }
            sink.put(row, col, cols, d, Ghost(all.take(k as int)), Ghost(cols as int));
            j = j + 1;
            k = k + 1;
        }
        block = block + 1;
    }
    assert(all.take(total as int) =~= all);
    sink
}

/// Quantizes bfloat16 weights to ternary digits and swizzles them.
pub fn generate_ane_swizzled_weights(raw_bf16: &[u8], out_dim: u32, in_dim: u32) -> (r: Vec<u8>)
    requires
        4 * swizzled_size(out_dim as int, in_dim as int) <= usize::MAX,
    ensures
        r@.len() == swizzled_size(out_dim as int, in_dim as int),
        forall|b: int|
            0 <= b < r@.len() ==> #[trigger] r@[b] == packed_byte(
                quantized_digits(raw_bf16@, HalfFormat::Bfloat16, out_dim * in_dim),
                in_dim as int,
                in_dim as int,
                b,
            ),
{
    let rows: usize = out_dim as usize;
    let cols: usize = in_dim as usize;
    proof {
        lemma_size_small(rows as int, cols as int);
    }
    let total: usize = swizzled_buffer_size(rows, cols);
    if total == 0 {
        return Vec::new();
    }
    let mut swz: Vec<u8> = vec![0u8; total];
    proof {
        if cols == 0 {
            assert(blocks(rows as int) * 0 == 0);
        }
    }
    let sink: Sink = swizzle_values(raw_bf16, HalfFormat::Bfloat16, rows, cols, total);
    let ghost digits = quantized_digits(raw_bf16@, HalfFormat::Bfloat16, out_dim * in_dim);
    write_out(
        &sink,
        total,
        swz.as_mut_slice(),
        Ghost(digits),
        Ghost(cols as int),
        Ghost(cols as int),
    );
    swz
}

/// Requantize FP16 KV cache to the swizzled u8 ternary format.
///
/// Reads FP16 KV values from the ANE's output surface (DRAM), quantizes
/// in 256-element blocks, packs 4 ternary digits per u8, and writes in
/// 16x16 block-swizzled order so the ANE Planar Engine `gather` LUT can
/// read it back.  The KV stays in DRAM as ternary packs until the next
/// ANE invocation needs it, at which point the E-core pumps it to SLC.
///
/// `fp16_kv`: raw FP16 bytes from KV cache (`seq_len * kv_dim * 2` bytes).
/// `seq_len`/`kv_dim`: shape of the KV cache slice being requantized.
/// `slc_buf`: pre-allocated output buffer (size = swizzled_buffer_size); one
/// that is too small is left alone, a larger one keeps its tail.
pub fn requantize_kv_to_swizzled_u8(
    fp16_kv: &[u8],
    seq_len: usize,
    kv_dim: usize,
    slc_buf: &mut [u8],
)
    requires
        4 * swizzled_size(seq_len as int, kv_dim as int) <= usize::MAX,
    ensures
        final(slc_buf)@.len() == old(slc_buf)@.len(),
        old(slc_buf)@.len() < swizzled_size(seq_len as int, kv_dim as int) ==> final(slc_buf)@
            == old(slc_buf)@,
        old(slc_buf)@.len() >= swizzled_size(seq_len as int, kv_dim as int) ==> forall|b: int|
            0 <= b < old(slc_buf)@.len() ==> #[trigger] final(slc_buf)@[b] == (if b < swizzled_size(
                seq_len as int,
                kv_dim as int,
            ) {
                packed_byte(
                    quantized_digits(fp16_kv@, HalfFormat::Float16, seq_len * kv_dim),
                    kv_dim as int,
                    kv_dim as int,
                    b,
                )
            } else {
                old(slc_buf)@[b] as int
            }),
{
    proof {
        lemma_size_small(seq_len as int, kv_dim as int);
    }
    let expected: usize = swizzled_buffer_size(seq_len, kv_dim);
    if slc_buf.len() < expected || expected == 0 {
        return;
    }
    proof {
        if kv_dim == 0 {
            assert(blocks(seq_len as int) * 0 == 0);
        }
    }
    let sink: Sink = swizzle_values(fp16_kv, HalfFormat::Float16, seq_len, kv_dim, expected);
    let ghost digits = quantized_digits(fp16_kv@, HalfFormat::Float16, seq_len * kv_dim);
    write_out(
        &sink,
        expected,
        slc_buf,
        Ghost(digits),
        Ghost(kv_dim as int),
        Ghost(kv_dim as int),
    );
}

/// The swizzle keeps digits apart: two positions of a matrix whose rows are a
/// whole number of blocks wide never share a slot.
pub proof fn law_swizzle_injective(r1: int, c1: int, r2: int, c2: int, width: int)
    requires
        width % 16 == 0,
        0 <= r1,
        0 <= r2,
        0 <= c1 < width,
        0 <= c2 < width,
        swizzle_index(r1, c1, width) == swizzle_index(r2, c2, width),
    ensures
        r1 == r2,
        c1 == c2,
{
    let w = width / 16;
    let i1 = (r1 / 16) * w + c1 / 16;
    let i2 = (r2 / 16) * w + c2 / 16;
    assert(i1 == i2);
    lemma_fundamental_div_mod_converse(i1, w, r1 / 16, c1 / 16);
    lemma_fundamental_div_mod_converse(i2, w, r2 / 16, c2 / 16);
}

/// The swizzle leaves no slot unused: in a buffer of whole blocks every slot
/// belongs to a position of the matrix, which is given back.
pub proof fn law_swizzle_onto(rows: int, width: int, at: int) -> (cell: (int, int))
    requires
        0 <= rows,
        0 <= width,
        rows % 16 == 0,
        width % 16 == 0,
        0 <= at < 4 * swizzled_size(rows, width),
    ensures
        0 <= cell.0 < rows,
        0 <= cell.1 < width,
        swizzle_index(cell.0, cell.1, width) == at,
{
    let w = width / 16;
    let block = at / 256;
    let inner = at % 256;
    assert(blocks(rows) == rows / 16);
    assert(blocks(width) == w);
    let total = (rows / 16) * w;
    assert(at < 256 * total);
    assert(w > 0) by (nonlinear_arith)
        requires
            0 <= at < 256 * ((rows / 16) * w),
            w >= 0,
    ;
    lemma_fundamental_div_mod(block, w);
    let br = block / w;
    let bc = block % w;
    assert(0 <= br < rows / 16) by (nonlinear_arith)
        requires
            block == w * br + bc,
            0 <= block < (rows / 16) * w,
            0 <= bc < w,
            w > 0,
    ;
    let row = 16 * br + inner / 16;
    let col = 16 * bc + inner % 16;
    assert(br * w == w * br) by (nonlinear_arith);
    (row, col)
}

proof fn lemma_digit_kept(digits: Seq<Option<u8>>, cols: int, width: int, k: int)
    requires
        0 <= k < digits.len(),
        0 < cols <= width,
        width % 16 == 0,
        digits[k] is Some,
    ensures
        digit_at(digits, cols, width, swizzle_index(k / cols, k % cols, width))
            == digits[k].unwrap(),
    decreases digits.len(),
{
    let n = digits.len() - 1;
    if k < n {
        lemma_digit_kept(digits.drop_last(), cols, width, k);
        assert(digits.drop_last()[k] == digits[k]);
        if swizzle_index(n / cols, n % cols, width) == swizzle_index(k / cols, k % cols, width) {
            lemma_fundamental_div_mod(k, cols);
            lemma_fundamental_div_mod(n, cols);
            assert(k / cols >= 0 && n / cols >= 0) by (nonlinear_arith)
                requires
                    k >= 0,
                    n >= 0,
                    cols > 0,
            ;
            law_swizzle_injective(k / cols, k % cols, n / cols, n % cols, width);
        }
    }
}

proof fn lemma_count_at_least(
    digits: Seq<Option<u8>>,
    cols: int,
    width: int,
    byte: int,
    first: int,
    n: int,
)
    requires
        0 <= first,
        0 <= n,
        first + n <= digits.len(),
        forall|k: int|
            first <= k < first + n ==> #[trigger] digits[k] is Some && swizzle_index(
                k / cols,
                k % cols,
                width,
            ) / 4 == byte,
    ensures
        fill_count(digits, cols, width, byte) >= n,
    decreases digits.len(),
{
    if digits.len() > 0 {
        let last = digits.len() - 1;
        let rest = digits.drop_last();
        if first + n == digits.len() && n > 0 {
            assert(digits[last] is Some);
            assert forall|k: int| first <= k < first + n - 1 implies #[trigger] rest[k] is Some
                && swizzle_index(k / cols, k % cols, width) / 4 == byte by {
                assert(rest[k] == digits[k]);
            }
            lemma_count_at_least(rest, cols, width, byte, first, n - 1);
        } else if first + n < digits.len() {
            assert forall|k: int| first <= k < first + n implies #[trigger] rest[k] is Some
                && swizzle_index(k / cols, k % cols, width) / 4 == byte by {
                assert(rest[k] == digits[k]);
            }
            lemma_count_at_least(rest, cols, width, byte, first, n);
        }
    }
}

/// What the gather LUT reads back: where the rows of a matrix are a whole
/// number of quartets and fit the buffer's block-aligned width, every digit of
/// the matrix is the base-3 digit of its byte at its slot.
#[verifier::spinoff_prover]
#[verifier::rlimit(40)]
pub proof fn law_swizzle_reads_back(digits: Seq<Option<u8>>, cols: int, width: int, k: int)
    requires
        0 < cols <= width,
        width % 16 == 0,
        cols % 4 == 0,
        digits.len() % (cols as nat) == 0,
        0 <= k < digits.len(),
        forall|i: int| 0 <= i < digits.len() ==> #[trigger] digits[i] is Some,
        all_ternary(digits),
    ensures
        ({
            let at = swizzle_index(k / cols, k % cols, width);
            trit(packed_byte(digits, cols, width, at / 4) as nat, (at % 4) as nat)
                == digits[k].unwrap()
        }),
{
    let row = k / cols;
    let col = k % cols;
    let at = swizzle_index(row, col, width);
    let byte = at / 4;
    let slot = at % 4;
    lemma_fundamental_div_mod(k, cols);
    lemma_div_pos_is_pos(k, cols);
    assert(cols * row == row * cols) by (nonlinear_arith);
    lemma_quartet_together(row, col, 0, width);
    let first = k - slot;
    assert(0 <= row * cols) by (nonlinear_arith)
        requires
            row >= 0,
            cols > 0,
    ;
    let len = digits.len() as int;
    lemma_fundamental_div_mod(len, cols);
    let all_rows = len / cols;
    assert(row < all_rows) by (nonlinear_arith)
        requires
            k < len,
            len == cols * all_rows,
            k == cols * row + col,
            0 <= col,
            cols > 0,
    ;
    assert(row * cols + cols <= len) by (nonlinear_arith)
        requires
            row + 1 <= all_rows,
            len == cols * all_rows,
            cols > 0,
    ;
    assert forall|i: int| first <= i < first + 4 implies #[trigger] digits[i] is Some
        && swizzle_index(i / cols, i % cols, width) / 4 == byte by {
        lemma_cell(row, col - slot + (i - first), cols);
        lemma_quartet_together(row, col, i - first, width);
    }
    lemma_count_at_least(digits, cols, width, byte, first, 4);
    lemma_digit_ternary(digits, cols, width, 4 * byte);
    lemma_digit_ternary(digits, cols, width, 4 * byte + 1);
    lemma_digit_ternary(digits, cols, width, 4 * byte + 2);
    lemma_digit_ternary(digits, cols, width, 4 * byte + 3);
    lemma_digit_kept(digits, cols, width, k);
    lemma_quartet_digits(
        slot_digit(digits, cols, width, byte, 0),
        slot_digit(digits, cols, width, byte, 1),
        slot_digit(digits, cols, width, byte, 2),
        slot_digit(digits, cols, width, byte, 3),
    );
    assert(4 * byte + slot == at);
    assert(slot_digit(digits, cols, width, byte, slot) == digits[k].unwrap());
}

proof fn lemma_quartet_together(row: int, col: int, s: int, width: int)
    requires
        0 <= row,
        0 <= col,
        0 <= s < 4,
    ensures
        swizzle_index(row, col, width) % 4 == col % 4,
        swizzle_index(row, col - col % 4 + s, width) / 4 == swizzle_index(row, col, width) / 4,
{
    let q = col / 4;
    lemma_quartet_byte((row / 16) * (width / 16), row % 16, q, col % 4);
    lemma_quartet_byte((row / 16) * (width / 16), row % 16, q, s);
    assert(col == 4 * q + col % 4);
}

proof fn lemma_quartet_byte(base: int, r: int, q: int, t: int)
    requires
        0 <= q,
        0 <= t < 4,
    ensures
        ({
            let at = (base + (4 * q + t) / 16) * 256 + r * 16 + (4 * q + t) % 16;
            at % 4 == t && at / 4 == (base + q / 4) * 64 + r * 4 + q % 4
        }),
{
    let c = 4 * q + t;
    assert(c / 16 == q / 4);
    assert(c % 16 == 4 * (q % 4) + t);
    let x = (base + q / 4) * 64 + r * 4 + q % 4;
    assert((base + c / 16) * 256 + r * 16 + c % 16 == 4 * x + t);
}

proof fn lemma_quartet_digits(q0: int, q1: int, q2: int, q3: int)
    requires
        0 <= q0 <= 2,
        0 <= q1 <= 2,
        0 <= q2 <= 2,
        0 <= q3 <= 2,
    ensures
        ({
            let b = (q0 + 3 * q1 + 9 * q2 + 27 * q3) as nat;
            trit(b, 0) == q0 && trit(b, 1) == q1 && trit(b, 2) == q2 && trit(b, 3) == q3
        }),
{
    let b = (q0 + 3 * q1 + 9 * q2 + 27 * q3) as nat;
    reveal_with_fuel(three_to, 4);
    assert(b / 1 == b);
    assert(b / 3 == q1 + 3 * q2 + 9 * q3);
    assert(b / 9 == q2 + 3 * q3);
    assert(b / 27 == q3);
}

proof fn lemma_digit_ternary(digits: Seq<Option<u8>>, cols: int, width: int, at: int)
    requires
        all_ternary(digits),
    ensures
        digit_at(digits, cols, width, at) <= 2,
    decreases digits.len(),
{
    if digits.len() > 0 {
        let rest = digits.drop_last();
        assert forall|k: int| 0 <= k < rest.len() implies (#[trigger] rest[k] matches Some(d)
            ==> d <= 2) by {
            assert(rest[k] == digits[k]);
        }
        lemma_digit_ternary(rest, cols, width, at);
        assert(digits[digits.len() - 1] matches Some(d) ==> d <= 2);
    }
}

/// Every digit of a matrix in tile640 format can be read back from the byte and
/// the slot that the swizzled form has it in. The matrix is as wide as the buffer,
/// a multiple of 16, all its words are there, and the buffer has room.
pub proof fn law_repacked_digits_read_back(
    before: Seq<u8>,
    after: Seq<u8>,
    packed: Seq<u8>,
    rows: int,
    cols: int,
    row: int,
    col: int,
)
    requires
        0 < cols,
        cols % 16 == 0,
        0 <= row < rows,
        0 <= col < cols,
        packed.len() >= rows * ((cols + 639) / 640) * 128,
        before.len() >= swizzled_size(rows, cols),
        is_repacked(before, after, packed, rows, cols, cols),
    ensures
        ({
            let at = swizzle_index(row, col, cols);
            let byte = after[at / 4];
            let word = (row * ((cols + 639) / 640) + col / 640) * 32 + (col % 640) / 20;
            &&& 0 <= at / 4 < after.len()
            &&& byte <= 80
            &&& trit(byte as nat, (at % 4) as nat) == trit(
                wire::le_value(packed.subrange(4 * word, 4 * word + 4)),
                (col % 20) as nat,
            )
        }),
{
    let tiles = (cols + 639) / 640;
    let digits = tile_digits(packed, rows, cols);
    let k = row * cols + col;
    assert(0 <= row * cols && row * cols + cols <= rows * cols) by (nonlinear_arith)
        requires
            0 <= row < rows,
            0 < cols,
    ;
    assert((row * tiles) * 32 == row * (tiles * 32)) by (nonlinear_arith);
    assert(rows * tiles * 128 == 4 * (rows * (tiles * 32))) by (nonlinear_arith);
    vstd::arithmetic::div_mod::lemma_fundamental_div_mod_converse(k, cols, row, col);
    vstd::arithmetic::div_mod::lemma_mod_multiples_basic(rows, cols);
    assert forall|j: int| 0 <= j < digits.len() implies #[trigger] digits[j] is Some by {
        let r = j / cols;
        let c = j % cols;
        lemma_fundamental_div_mod(j, cols);
        assert(0 <= r < rows) by (nonlinear_arith)
            requires
                j == cols * r + c,
                0 <= c < cols,
                0 <= j < rows * cols,
        ;
        assert(c / 20 < tiles * 32);
        assert(r * (tiles * 32) + tiles * 32 <= rows * (tiles * 32)) by (nonlinear_arith)
            requires
                r + 1 <= rows,
                0 <= tiles,
        ;
    }
    assert(all_ternary(digits)) by {
        assert forall|j: int| 0 <= j < digits.len() implies (#[trigger] digits[j] matches Some(d)
            ==> d <= 2) by {}
    }
    law_swizzle_reads_back(digits, cols, cols, k);
    lemma_inside(row, col, rows, cols);
    let byte = swizzle_index(row, col, cols) / 4;
    assert(after[byte] == packed_byte(digits, cols, cols, byte));
    lemma_digit_ternary(digits, cols, cols, 4 * byte);
    lemma_digit_ternary(digits, cols, cols, 4 * byte + 1);
    lemma_digit_ternary(digits, cols, cols, 4 * byte + 2);
    lemma_digit_ternary(digits, cols, cols, 4 * byte + 3);
}

/// How the cells of a matrix lie in a swizzled buffer, four to a byte: along a row inside
/// a block of 16 by 16 one after the other, row after row 16 apart, and block after block
/// 256 apart, those of a row of blocks first.
pub proof fn law_cells_lie_by_blocks(
    row: usize,
    col: usize,
    width: usize,
    here: (usize, usize),
    right: (usize, usize),
    below: (usize, usize),
    next: (usize, usize),
    under: (usize, usize),
)
    requires
        call_ensures(swizzled_byte_offset, (row, col, width), here),
        col + 16 <= usize::MAX,
        row + 16 <= usize::MAX,
        call_ensures(swizzled_byte_offset, (row, (col + 1) as usize, width), right),
        call_ensures(swizzled_byte_offset, ((row + 1) as usize, col, width), below),
        call_ensures(swizzled_byte_offset, (row, (col + 16) as usize, width), next),
        call_ensures(swizzled_byte_offset, ((row + 16) as usize, col, width), under),
    ensures
        here.1 < 4,
        row == 0 && col == 0 ==> here.0 == 0 && here.1 == 0,
        (col + 1) % 16 != 0 ==> 4 * right.0 + right.1 == 4 * here.0 + here.1 + 1,
        (row + 1) % 16 != 0 ==> 4 * below.0 + below.1 == 4 * here.0 + here.1 + 16,
        4 * next.0 + next.1 == 4 * here.0 + here.1 + 256,
        4 * under.0 + under.1 == 4 * here.0 + here.1 + 256 * (width as int / 16),
{
    let w = width as int / 16;
    let r = row as int;
    let c = col as int;
    assert((r + 16) / 16 == r / 16 + 1 && (r + 16) % 16 == r % 16);
    assert((c + 16) / 16 == c / 16 + 1 && (c + 16) % 16 == c % 16);
    assert((r / 16 + 1) * w == (r / 16) * w + w) by (nonlinear_arith);
    assert(0 <= (r / 16) * w) by (nonlinear_arith)
        requires
            0 <= r,
            0 <= w,
    ;
    if (r + 1) % 16 != 0 {
        assert((r + 1) / 16 == r / 16 && (r + 1) % 16 == r % 16 + 1);
    }
    if (c + 1) % 16 != 0 {
        assert((c + 1) / 16 == c / 16 && (c + 1) % 16 == c % 16 + 1);
    }
    if r == 0 {
        assert(0 * w == 0);
    }
}

/// The size of a swizzled buffer is 64 bytes for each block of 16 by 16 that the matrix
/// touches.
pub proof fn law_buffer_holds_all_blocks(rows: usize, cols: usize, size: usize)
    requires
        call_ensures(swizzled_buffer_size, (rows, cols), size),
    ensures
        ({
            let down = if rows % 16 == 0 {
                rows as int / 16
            } else {
                rows as int / 16 + 1
            };
            let across = if cols % 16 == 0 {
                cols as int / 16
            } else {
                cols as int / 16 + 1
            };
            size == 64 * (down * across)
        }),
{
    let a = blocks(rows as int);
    let b = blocks(cols as int);
    assert(a * b * 64 == 64 * (a * b)) by (nonlinear_arith);
}

/// Every element of a matrix that is quantized into a swizzled buffer can be read back as
/// its digit, under the scale of the 256 elements that it is quantized with: 1 where it is
/// at least half the scale, 2 where it is at most minus half of it, 0 otherwise. The
/// width is a multiple of 16.
#[verifier::spinoff_prover]
#[verifier::rlimit(40)]
pub proof fn law_quantized_digits_read_back(
    raw: Seq<u8>,
    format: HalfFormat,
    rows: int,
    cols: int,
    row: int,
    col: int,
)
    requires
        0 < cols,
        cols % 16 == 0,
        0 <= row < rows,
        0 <= col < cols,
        raw.len() >= 2 * (rows * cols),
    ensures
        ({
            let at = swizzle_index(row, col, cols);
            let k = row * cols + col;
            let digits = quantized_digits(raw, format, rows * cols);
            let byte = packed_byte(digits, cols, cols, at / 4);
            let h = raw[2 * k] + 256 * raw[2 * k + 1];
            let block = block_values(raw, format, rows * cols, k / 256);
            let w = block[k % 256];
            let scale = float_bits::block_scale(block);
            &&& 0 <= k < rows * cols
            &&& format == HalfFormat::Bfloat16 ==> w == 0x1_0000 * h
            &&& 0 <= byte <= 80
            &&& byte / pow(3, (at % 4) as nat) % 3 == (if w % 0x8000_0000 > 0x7F80_0000 || scale
                == 0x7F80_0000 || 2 * float_bits::magnitude(w as int % 0x8000_0000)
                < float_bits::magnitude(scale as int) {
                0int
            } else if w >= 0x8000_0000 {
                2
            } else {
                1
            })
        }),
{
    let total = rows * cols;
    let k = row * cols + col;
    let digits = quantized_digits(raw, format, total);
    assert(0 <= row * cols && row * cols + cols <= rows * cols) by (nonlinear_arith)
        requires
            0 <= row < rows,
            0 < cols,
    ;
    vstd::arithmetic::div_mod::lemma_fundamental_div_mod_converse(k, cols, row, col);
    vstd::arithmetic::div_mod::lemma_mod_multiples_basic(rows, cols);
    assert(all_ternary(digits)) by {
        assert forall|j: int| 0 <= j < digits.len() implies (#[trigger] digits[j] matches Some(d)
            ==> d <= 2) by {}
    }
    law_swizzle_reads_back(digits, cols, cols, k);
    let at = swizzle_index(row, col, cols);
    lemma_inside(row, col, rows, cols);
    let byte = at / 4;
    lemma_digit_ternary(digits, cols, cols, 4 * byte);
    lemma_digit_ternary(digits, cols, cols, 4 * byte + 1);
    lemma_digit_ternary(digits, cols, cols, 4 * byte + 2);
    lemma_digit_ternary(digits, cols, cols, 4 * byte + 3);
    lemma_three_to_is_pow((at % 4) as nat);
    assert(256 * (k / 256) + k % 256 == k);
    assert(digits[k] == Some(quantized_digit(raw, format, total, k)));
    let block = block_values(raw, format, total, k / 256);
    let scale = float_bits::block_scale(block);
    float_bits::lemma_largest_is_largest(block);
    assert(scale <= 0x7F80_0000);
    assert(float_bits::abs_bits(scale) == scale);
    assert(block[k % 256] == value_at(raw, format, k));
}

proof fn lemma_three_to_is_pow(n: nat)
    ensures
        three_to(n) == pow(3, n),
    decreases n,
{
    if n == 0 {
        lemma_pow0(3);
    } else {
        lemma_three_to_is_pow((n - 1) as nat);
        reveal(pow);
    }
}

} // verus!
