//! The 16x16 self-describing organism: every cell must answer its own 12-bit
//! descriptor `[op:4][dir_a:3][dir_b:3][is_input:1][is_output:1]`.
//!
//! The answers of the 256 cells come back as one little-endian bit stream of
//! 32-bit words, 12 bits per cell.
use vstd::prelude::*;
use crate::tasks::{count_ones, popcount};
use crate::targets::lemma_set_bit;

verus! {

/// Cells in an organism.
pub const ORGANISM_CELLS: usize = 256;
/// Words of answer bits per organism (256 cells of 12 bits).
pub const RESULT_WORDS: usize = 96;

#[derive(Clone, Copy, Debug, PartialEq, Eq)]
pub struct Cell {
    /// 0..16 gates, 16 void.
    pub op: u32,
    pub dir_a: u32,
    pub dir_b: u32,
    /// Bit 0: input cell; bit 1: output cell.
    pub flags: u32,
}

/// The 12-bit descriptor of a cell: its op clamped to 4 bits (ops above 16
/// give 15), except VOID (16), which gives 0; both directions taken modulo
/// 8; and its two flags.
pub open spec fn encode_spec(c: Cell) -> int {
    (if c.op < 16 { c.op as int } else if c.op == 16 { 0 } else { 15 }) * 256 + (c.dir_a % 8) * 32 + (c.dir_b % 8) * 4 + (if c.flags
        % 2 == 1 { 2int } else { 0 }) + (if (c.flags / 2) % 2 == 1 { 1int } else { 0 })
}

/// The masks that read the flags and directions of a cell.
proof fn lemma_field_masks()
    by (bit_vector)
    ensures
        forall|f: u32| #[trigger] (f & 1u32) != 0 <==> f % 2 == 1,
        forall|f: u32| #[trigger] (f & 2u32) != 0 <==> (f / 2) % 2 == 1,
        forall|d: u32| #[trigger] (d & 7u32) == d % 8,
        forall|x: u32, s: u32| #[trigger] ((x >> s) & 1u32) <= 1u32,
        forall|s: u32| #[trigger] (0u32 >> s) == 0u32,
        forall|e: u32| #[trigger] (e ^ e) == 0u32,
        0u32 & 1u32 == 0u32,
{
}

impl Cell {
    pub fn is_input(&self) -> (r: bool)
        ensures
            r == (self.flags % 2 == 1),
    {
        proof {
            lemma_field_masks();
        }
        self.flags & 1 != 0
    }

    pub fn is_output(&self) -> (r: bool)
        ensures
            r == ((self.flags / 2) % 2 == 1),
    {
        proof {
            lemma_field_masks();
        }
        self.flags & 2 != 0
    }

    /// The cell's 12-bit descriptor.
    pub fn encode(&self) -> (r: u32)
        ensures
            r == encode_spec(*self),
            r < 4096,
    {
        let op = if self.op < 16 {
            self.op
        } else if self.op == 16 {
            0
        } else {
            15
        };
        let dir_a = self.dir_a & 7;
        let dir_b = self.dir_b & 7;
        let is_in: u32 = if self.is_input() { 1 } else { 0 };
        let is_out: u32 = if self.is_output() { 1 } else { 0 };
        proof {
            lemma_field_masks();
        }
        let r = (op << 8u32) | (dir_a << 5u32) | (dir_b << 2u32) | (is_in << 1u32) | is_out;
        assert(r == op * 256 + dir_a * 32 + dir_b * 4 + is_in * 2 + is_out) by (bit_vector)
            requires
                r == (op << 8u32) | (dir_a << 5u32) | (dir_b << 2u32) | (is_in << 1u32) | is_out,
                op <= 15,
                dir_a < 8,
                dir_b < 8,
                is_in <= 1,
                is_out <= 1,
        ;
        r
    }
}

/// Bit `j` of the little-endian bit stream held in `words`.
pub open spec fn stream_bit(words: Seq<u32>, j: int) -> u32 {
    (words[j / 32] >> ((j % 32) as u32)) & 1u32
}

/// The number whose bit `k` is stream bit `12 c + k`, for `k < n`.
pub open spec fn field_upto(words: Seq<u32>, c: int, n: int) -> u32
    decreases n,
{
    if n <= 0 {
        0
    } else {
        let w = field_upto(words, c, n - 1);
        if stream_bit(words, 12 * c + n - 1) == 1 {
            w | (1u32 << ((n - 1) as u32))
        } else {
            w
        }
    }
}

/// The 12-bit answer of cell `c`: stream bits `12 c .. 12 c + 12`.
pub open spec fn cell_answer(words: Seq<u32>, c: int) -> u32 {
    field_upto(words, c, 12)
}

/// Bit `k < n` of `field_upto(words, c, n)` is stream bit `12 c + k`, and no
/// bit from `n` on is set.
proof fn lemma_field_bits(words: Seq<u32>, c: int, n: int)
    requires
        0 <= n <= 12,
    ensures
        forall|k: u32| k < n ==> (#[trigger] (field_upto(words, c, n) >> k) & 1u32) == stream_bit(words, 12 * c + k),
        field_upto(words, c, n) >> (n as u32) == 0,
    decreases n,
{
    if n == 0 {
        lemma_field_masks();
        assert(0u32 >> 0u32 == 0);
    } else {
        lemma_field_bits(words, c, n - 1);
        let w = field_upto(words, c, n - 1);
        let j = 12 * c + n - 1;
        let v = stream_bit(words, j);
        let x = words[j / 32];
        let sh = (j % 32) as u32;
        lemma_field_masks();
        lemma_set_bit(w, (n - 1) as u32, v == 1);
        let w2 = field_upto(words, c, n);
        let k1 = (n - 1) as u32;
        assert((w2 >> k1) & 1u32 <= 1u32);
        assert forall|k: u32| k < n implies (#[trigger] (field_upto(words, c, n) >> k) & 1u32) == stream_bit(
            words,
            12 * c + k,
        ) by {
            if k < n - 1 {
                assert((w >> k) & 1u32 == stream_bit(words, 12 * c + k));
            }
        }
    }
}

/// Two 12-bit numbers with the same 12 bits are equal.
proof fn lemma_twelve_bits_equal(a: u32, b: u32)
    requires
        a >> 12u32 == 0,
        b >> 12u32 == 0,
        forall|k: u32| k < 12 ==> (#[trigger] (a >> k) & 1u32) == (b >> k) & 1u32,
    ensures
        a == b,
{
    assert((a >> 0u32) & 1u32 == (b >> 0u32) & 1u32);
    assert((a >> 1u32) & 1u32 == (b >> 1u32) & 1u32);
    assert((a >> 2u32) & 1u32 == (b >> 2u32) & 1u32);
    assert((a >> 3u32) & 1u32 == (b >> 3u32) & 1u32);
    assert((a >> 4u32) & 1u32 == (b >> 4u32) & 1u32);
    assert((a >> 5u32) & 1u32 == (b >> 5u32) & 1u32);
    assert((a >> 6u32) & 1u32 == (b >> 6u32) & 1u32);
    assert((a >> 7u32) & 1u32 == (b >> 7u32) & 1u32);
    assert((a >> 8u32) & 1u32 == (b >> 8u32) & 1u32);
    assert((a >> 9u32) & 1u32 == (b >> 9u32) & 1u32);
    assert((a >> 10u32) & 1u32 == (b >> 10u32) & 1u32);
    assert((a >> 11u32) & 1u32 == (b >> 11u32) & 1u32);
    assert(a == b) by (bit_vector)
        requires
            a >> 12u32 == 0,
            b >> 12u32 == 0,
            (a >> 0u32) & 1u32 == (b >> 0u32) & 1u32,
            (a >> 1u32) & 1u32 == (b >> 1u32) & 1u32,
            (a >> 2u32) & 1u32 == (b >> 2u32) & 1u32,
            (a >> 3u32) & 1u32 == (b >> 3u32) & 1u32,
            (a >> 4u32) & 1u32 == (b >> 4u32) & 1u32,
            (a >> 5u32) & 1u32 == (b >> 5u32) & 1u32,
            (a >> 6u32) & 1u32 == (b >> 6u32) & 1u32,
            (a >> 7u32) & 1u32 == (b >> 7u32) & 1u32,
            (a >> 8u32) & 1u32 == (b >> 8u32) & 1u32,
            (a >> 9u32) & 1u32 == (b >> 9u32) & 1u32,
            (a >> 10u32) & 1u32 == (b >> 10u32) & 1u32,
            (a >> 11u32) & 1u32 == (b >> 11u32) & 1u32,
    ;
}

/// The 12-bit answer of cell `cell_idx`, taken from one word or from two.
fn extract_answer(results: &Vec<u32>, cell_idx: usize) -> (r: u32)
    requires
        cell_idx < ORGANISM_CELLS,
        results@.len() >= RESULT_WORDS,
    ensures
        r == cell_answer(results@, cell_idx as int),
        r < 4096,
{
    let bit_offset = cell_idx * 12;
    let word_idx = bit_offset / 32;
    let bit_in_word = bit_offset % 32;
    let ghost c = cell_idx as int;
    let ghost words = results@;
    let actual: u32 = if bit_in_word + 12 <= 32 {
        let w = results[word_idx];
        let off = bit_in_word as u32;
        let a = (w >> off) & 0xFFF;
        proof {
            assert forall|k: u32| k < 12 implies (#[trigger] (a >> k) & 1u32) == stream_bit(words, 12 * c + k) by {
                assert((a >> k) & 1u32 == (w >> ((off + k) as u32)) & 1u32) by (bit_vector)
                    requires
                        a == (w >> off) & 0xFFFu32,
                        k < 12u32,
                        off + 12 <= 32u32,
                ;
                vstd::arithmetic::div_mod::lemma_fundamental_div_mod_converse(
                    12 * c + k,
                    32,
                    word_idx as int,
                    off + k,
                );
            }
            assert(a >> 12u32 == 0) by (bit_vector)
                requires
                    a == (w >> off) & 0xFFFu32,
            ;
        }
        a
    } else {
        let lo_bits = (32 - bit_in_word) as u32;
        let hi_bits = 12 - lo_bits;
        let w0 = results[word_idx];
        let w1 = results[word_idx + 1];
        let off = bit_in_word as u32;
        let lo = w0 >> off;
        assert(1u32 << hi_bits >= 1u32) by (bit_vector)
            requires
                hi_bits < 12u32,
        ;
        let mask = (1u32 << hi_bits) - 1;
        let hi = w1 & mask;
        let a = lo | (hi << lo_bits);
        proof {
            assert forall|k: u32| k < 12 implies (#[trigger] (a >> k) & 1u32) == stream_bit(words, 12 * c + k) by {
                if k < lo_bits {
                    assert((a >> k) & 1u32 == (w0 >> ((off + k) as u32)) & 1u32) by (bit_vector)
                        requires
                            a == (w0 >> off) | ((w1 & mask) << lo_bits),
                            mask == ((1u32 << hi_bits) - 1u32) as u32,
                            lo_bits == 32u32 - off,
                            hi_bits == 12u32 - lo_bits,
                            off < 32u32,
                            off + 12 > 32u32,
                            k < lo_bits,
                    ;
                    vstd::arithmetic::div_mod::lemma_fundamental_div_mod_converse(
                        12 * c + k,
                        32,
                        word_idx as int,
                        off + k,
                    );
                } else {
                    assert((a >> k) & 1u32 == (w1 >> ((k - lo_bits) as u32)) & 1u32) by (bit_vector)
                        requires
                            a == (w0 >> off) | ((w1 & mask) << lo_bits),
                            mask == ((1u32 << hi_bits) - 1u32) as u32,
                            lo_bits == 32u32 - off,
                            hi_bits == 12u32 - lo_bits,
                            off < 32u32,
                            off + 12 > 32u32,
                            lo_bits <= k,
                            k < 12u32,
                    ;
                    vstd::arithmetic::div_mod::lemma_fundamental_div_mod_converse(
                        12 * c + k,
                        32,
                        word_idx + 1,
                        k - lo_bits,
                    );
                }
            }
            assert(a >> 12u32 == 0) by (bit_vector)
                requires
                    a == (w0 >> off) | ((w1 & mask) << lo_bits),
                            mask == ((1u32 << hi_bits) - 1u32) as u32,
                    lo_bits == 32u32 - off,
                    hi_bits == 12u32 - lo_bits,
                    off < 32u32,
                    off + 12 > 32u32,
            ;
        }
        a
    };
    proof {
        lemma_field_bits(words, c, 12);
        lemma_twelve_bits_equal(actual, cell_answer(words, c));
        assert(actual < 4096) by (bit_vector)
            requires
                actual >> 12u32 == 0,
        ;
    }
    actual
}

/// Number of cells among `0..n` whose answer is their own descriptor.
pub open spec fn matching_cells(cells: Seq<Cell>, results: Seq<u32>, n: int) -> int
    decreases n,
{
    if n <= 0 {
        0
    } else {
        matching_cells(cells, results, n - 1) + if encode_spec(cells[n - 1]) == cell_answer(
            results,
            n - 1,
        ) {
            1int
        } else {
            0int
        }
    }
}

/// Number of answer bits among cells `0..n` equal to the bit of their
/// descriptor.
pub open spec fn correct_bits(cells: Seq<Cell>, results: Seq<u32>, n: int) -> int
    decreases n,
{
    if n <= 0 {
        0
    } else {
        correct_bits(cells, results, n - 1) + 12 - popcount(
            (encode_spec(cells[n - 1]) as u32) ^ cell_answer(results, n - 1),
        )
    }
}

/// Quine fitness of an organism from its answer words: the number of cells
/// that answer exactly their own descriptor, and the number of answer bits
/// that are right.
pub fn quine_fitness(cells: &Vec<Cell>, results: &Vec<u32>) -> (r: (usize, usize))
    requires
        cells@.len() == ORGANISM_CELLS,
        results@.len() >= RESULT_WORDS,
    ensures
        r.0 == matching_cells(cells@, results@, 256),
        r.1 == correct_bits(cells@, results@, 256),
{
    let mut matches: usize = 0;
    let mut total_bits_correct: usize = 0;
    let mut cell_idx: usize = 0;
    while cell_idx < ORGANISM_CELLS
        invariant
            cell_idx <= 256,
            cells@.len() == 256,
            results@.len() >= RESULT_WORDS,
            matches == matching_cells(cells@, results@, cell_idx as int),
            total_bits_correct == correct_bits(cells@, results@, cell_idx as int),
            matches <= cell_idx,
            total_bits_correct <= 12 * cell_idx,
        decreases 256 - cell_idx,
    {
        let expected = cells[cell_idx].encode();
        let actual = extract_answer(results, cell_idx);
        let x = expected ^ actual;
        let ones = count_ones(x);
        proof {
            if expected == actual {
                lemma_field_masks();
                assert(x == expected ^ expected);
                assert(ones == 0) by {
                    assert forall|k: int| 0 <= k <= 32 implies #[trigger] crate::tasks::ones_below(x, k) == 0 by {
                        lemma_ones_zero(k);
                    }
                }
            }
            assert(ones <= 12) by {
                lemma_ones_bound(expected, actual);
            }
        }
        if expected == actual {
            matches = matches + 1;
            total_bits_correct = total_bits_correct + 12;
        } else {
            total_bits_correct = total_bits_correct + (12 - ones as usize);
        }
        cell_idx = cell_idx + 1;
    }
    (matches, total_bits_correct)
}

proof fn lemma_ones_zero(k: int)
    requires
        0 <= k <= 32,
    ensures
        crate::tasks::ones_below(0u32, k) == 0,
    decreases k,
{
    if k > 0 {
        lemma_ones_zero(k - 1);
        let s = (k - 1) as u32;
        lemma_field_masks();
        assert(0u32 >> s == 0u32);
    }
}

/// Bits 12.. of `x` are clear, so those bits add nothing to its count.
proof fn lemma_ones_high_zero(x: u32, k: int)
    requires
        12 <= k <= 32,
        x >> 12u32 == 0,
    ensures
        crate::tasks::ones_below(x, k) == crate::tasks::ones_below(x, 12),
    decreases k,
{
    if k > 12 {
        lemma_ones_high_zero(x, k - 1);
        let s = (k - 1) as u32;
        assert((x >> s) & 1u32 == 0u32) by (bit_vector)
            requires
                x >> 12u32 == 0,
                s >= 12u32,
                s < 32u32,
        ;
    }
}

proof fn lemma_ones_le(x: u32, k: int)
    requires
        0 <= k <= 32,
    ensures
        crate::tasks::ones_below(x, k) <= k,
    decreases k,
{
    if k > 0 {
        lemma_ones_le(x, k - 1);
    }
}

/// Two 12-bit numbers differ in at most 12 bits.
proof fn lemma_ones_bound(a: u32, b: u32)
    requires
        a < 4096,
        b < 4096,
    ensures
        popcount(a ^ b) <= 12,
{
    let x = a ^ b;
    assert(x >> 12u32 == 0) by (bit_vector)
        requires
            x == a ^ b,
            a < 4096u32,
            b < 4096u32,
    ;
    lemma_ones_high_zero(x, 32);
    lemma_ones_le(x, 12);
}

/// A perfect self-description scores best, and only it does: all `n`
/// cells match exactly when every cell answers its own descriptor, and then
/// all `12 n` answer bits are right.
pub proof fn lemma_perfect_quine(cells: Seq<Cell>, results: Seq<u32>, n: int)
    requires
        0 <= n,
    ensures
        matching_cells(cells, results, n) <= n,
        matching_cells(cells, results, n) == n <==> forall|c: int|
            0 <= c < n ==> encode_spec(#[trigger] cells[c]) == cell_answer(results, c),
        (forall|c: int| 0 <= c < n ==> encode_spec(#[trigger] cells[c]) == cell_answer(results, c))
            ==> correct_bits(cells, results, n) == 12 * n,
    decreases n,
{
    if n > 0 {
        lemma_perfect_quine(cells, results, n - 1);
        if encode_spec(cells[n - 1]) == cell_answer(results, n - 1) {
            let a = cell_answer(results, n - 1);
            assert(((encode_spec(cells[n - 1]) as u32) ^ a) == 0) by {
                let e = encode_spec(cells[n - 1]) as u32;
                assert(e == a);
                lemma_field_masks();
                assert(e ^ e == 0u32);
            }
            assert forall|k: int| 0 <= k <= 32 implies #[trigger] crate::tasks::ones_below(0u32, k) == 0 by {
                lemma_ones_zero(k);
            }
        }
        if matching_cells(cells, results, n) == n {
            assert forall|c: int| 0 <= c < n implies encode_spec(#[trigger] cells[c]) == cell_answer(results, c) by {
                if c < n - 1 {
                    assert(matching_cells(cells, results, n - 1) == n - 1);
                }
            }
        }
    }
}

/// Number of input cells and of output cells of an organism.
pub open spec fn input_count(cells: Seq<Cell>, n: int) -> int
    decreases n,
{
    if n <= 0 {
        0
    } else {
        input_count(cells, n - 1) + if cells[n - 1].flags % 2 == 1 { 1int } else { 0int }
    }
}

pub open spec fn output_count(cells: Seq<Cell>, n: int) -> int
    decreases n,
{
    if n <= 0 {
        0
    } else {
        output_count(cells, n - 1) + if (cells[n - 1].flags / 2) % 2 == 1 { 1int } else { 0int }
    }
}

/// Number of input cells and of output cells.
pub fn count_io(cells: &Vec<Cell>) -> (r: (usize, usize))
    ensures
        r.0 == input_count(cells@, cells@.len() as int),
        r.1 == output_count(cells@, cells@.len() as int),
{
    let mut inputs: usize = 0;
    let mut outputs: usize = 0;
    let mut i: usize = 0;
    while i < cells.len()
        invariant
            i <= cells@.len(),
            inputs == input_count(cells@, i as int),
            outputs == output_count(cells@, i as int),
            inputs <= i,
            outputs <= i,
        decreases cells@.len() - i,
    {
        if cells[i].is_input() {
            inputs = inputs + 1;
        }
        if cells[i].is_output() {
            outputs = outputs + 1;
        }
        i = i + 1;
    }
    (inputs, outputs)
}

} // verus!
