//! Pixel coordinates of a 256x256 image as bit-sliced words: for every chunk
//! of 64 consecutive pixels (row-major), word `b` of the X (or Y) table holds
//! bit `b` of each pixel's x (or y) coordinate, pixel `i` of the chunk in bit
//! `i`.
use vstd::prelude::*;

verus! {

pub const IMAGE_WIDTH: u32 = 256;
pub const IMAGE_HEIGHT: u32 = 256;
pub const TOTAL_PIXELS: usize = 65536;
/// Pixels per chunk (one per bit of a `u64`).
pub const CHUNK_SIZE: usize = 64;
pub const NUM_CHUNKS: usize = 1024;
/// Bits per coordinate.
pub const COORD_BITS: usize = 8;

pub struct PrecomputedInputs {
    /// `x_bits[chunk][b]`: bit `b` of the x coordinate of each pixel of the chunk.
    pub x_bits: Vec<Vec<u64>>,
    /// `y_bits[chunk][b]`: bit `b` of the y coordinate of each pixel of the chunk.
    pub y_bits: Vec<Vec<u64>>,
}

/// Coordinates of pixel `g`.
pub open spec fn x_of(g: int) -> u8 {
    (g % 256) as u8
}

pub open spec fn y_of(g: int) -> u8 {
    (g / 256) as u8
}

/// Bit `b` of `v` as a word.
pub open spec fn coord_bit(v: u8, b: int) -> u64 {
    ((v >> (b as u8)) & 1u8) as u64
}

/// The word for bit `b` of the x (`is_x`) or y coordinate over the first `k`
/// pixels of chunk `c`.
pub open spec fn coord_word(c: int, b: int, is_x: bool, k: int) -> u64
    decreases k,
{
    if k <= 0 {
        0
    } else {
        let g = c * 64 + (k - 1);
        let v = if is_x { x_of(g) } else { y_of(g) };
        coord_word(c, b, is_x, k - 1) | (coord_bit(v, b) << ((k - 1) as u64))
    }
}

/// Bit `i` of `w`.
pub open spec fn word_bit(w: u64, i: int) -> u64 {
    (w >> (i as u64)) & 1u64
}

proof fn lemma_or_step(w: u64, v: u64, k: u64)
    requires
        k < 64,
        v <= 1,
        w >> k == 0,
    ensures
        forall|i: u64| i < k ==> ((w | (v << k)) >> i) & 1u64 == (w >> i) & 1u64,
        ((w | (v << k)) >> k) & 1u64 == v,
        k + 1 < 64 ==> (w | (v << k)) >> ((k + 1) as u64) == 0,
{
    assert forall|i: u64| i < k implies ((w | (v << k)) >> i) & 1u64 == (w >> i) & 1u64 by {
        assert(((w | (v << k)) >> i) & 1u64 == (w >> i) & 1u64) by (bit_vector)
            requires
                k < 64u64,
                v <= 1u64,
                i < k,
        ;
    }
    assert(((w | (v << k)) >> k) & 1u64 == v) by (bit_vector)
        requires
            k < 64u64,
            v <= 1u64,
            w >> k == 0u64,
    ;
    if k + 1 < 64 {
        let k1 = (k + 1) as u64;
        assert((w | (v << k)) >> k1 == 0u64) by (bit_vector)
            requires
                k1 == k + 1,
                k1 < 64u64,
                v <= 1u64,
                w >> k == 0u64,
        ;
    }
}

/// Each bit `i < k` of a coordinate word is the coordinate bit of pixel `i`.
pub proof fn lemma_coord_word_bits(c: int, b: int, is_x: bool, k: int)
    requires
        0 <= k <= 64,
        0 <= b < 8,
    ensures
        forall|i: int|
            0 <= i < k ==> #[trigger] word_bit(coord_word(c, b, is_x, k), i) == coord_bit(
                if is_x { x_of(c * 64 + i) } else { y_of(c * 64 + i) },
                b,
            ),
        k < 64 ==> coord_word(c, b, is_x, k) >> (k as u64) == 0,
    decreases k,
{
    if k == 0 {
        assert(0u64 >> 0u64 == 0) by (bit_vector);
    } else {
        lemma_coord_word_bits(c, b, is_x, k - 1);
        let w = coord_word(c, b, is_x, k - 1);
        let g = c * 64 + (k - 1);
        let v = coord_bit(if is_x { x_of(g) } else { y_of(g) }, b);
        let vv = if is_x { x_of(g) } else { y_of(g) };
        let bb = b as u8;
        assert((vv >> bb) & 1u8 <= 1u8) by (bit_vector);
        lemma_or_step(w, v, (k - 1) as u64);
        assert forall|i: int| 0 <= i < k implies #[trigger] word_bit(coord_word(c, b, is_x, k), i) == coord_bit(
            if is_x { x_of(c * 64 + i) } else { y_of(c * 64 + i) },
            b,
        ) by {
            if i < k - 1 {
                assert(word_bit(w, i) == coord_bit(
                    if is_x { x_of(c * 64 + i) } else { y_of(c * 64 + i) },
                    b,
                ));
            }
        }
    }
}

/// The coordinate words of chunk `c` for bits `0..8`.
fn chunk_words(c: usize, is_x: bool) -> (row: Vec<u64>)
    requires
        c < NUM_CHUNKS,
    ensures
        row@.len() == COORD_BITS,
        forall|b: int| 0 <= b < 8 ==> #[trigger] row@[b] == coord_word(c as int, b, is_x, 64),
{
    let mut row: Vec<u64> = vec![0u64; COORD_BITS];
    proof {
        assert forall|b: int| 0 <= b < 8 implies #[trigger] row@[b] == coord_word(c as int, b, is_x, 0) by {
            assert(cloned(0u64, row@[b]));
        }
    }
    let mut i: usize = 0;
    while i < CHUNK_SIZE
        invariant
            c < NUM_CHUNKS,
            i <= 64,
            row@.len() == 8,
            forall|b: int| 0 <= b < 8 ==> #[trigger] row@[b] == coord_word(c as int, b, is_x, i as int),
        decreases 64 - i,
    {
        let global_pixel_idx = c * CHUNK_SIZE + i;
        let x = (global_pixel_idx as u32 % IMAGE_WIDTH) as u8;
        let y = (global_pixel_idx as u32 / IMAGE_WIDTH) as u8;
        assert(x == x_of(c * 64 + i));
        assert(y == y_of(c * 64 + i));
        let ghost prev = row@;
        let mut b: usize = 0;
        while b < COORD_BITS
            invariant
                i < 64,
                b <= 8,
                row@.len() == 8,
                x == x_of(c * 64 + i),
                y == y_of(c * 64 + i),
                forall|q: int| 0 <= q < b ==> #[trigger] row@[q] == coord_word(c as int, q, is_x, i + 1),
                forall|q: int| b <= q < 8 ==> #[trigger] row@[q] == prev[q],
                forall|q: int| 0 <= q < 8 ==> #[trigger] prev[q] == coord_word(c as int, q, is_x, i as int),
            decreases 8 - b,
        {
            let v = if is_x { x } else { y };
            let bit_val = ((v >> (b as u8)) & 1) as u64;
            let w = row[b] | (bit_val << (i as u64));
            row.set(b, w);
            b = b + 1;
        }
        i = i + 1;
    }
    row
}

impl PrecomputedInputs {
    /// The bit-sliced coordinates of every chunk.
    pub fn new() -> (r: PrecomputedInputs)
        ensures
            r.x_bits@.len() == NUM_CHUNKS,
            r.y_bits@.len() == NUM_CHUNKS,
            forall|c: int|
                0 <= c < NUM_CHUNKS ==> (#[trigger] r.x_bits@[c])@.len() == COORD_BITS && r.y_bits@[c]@.len()
                    == COORD_BITS,
            forall|c: int, b: int|
                0 <= c < NUM_CHUNKS && 0 <= b < COORD_BITS ==> #[trigger] r.x_bits@[c]@[b] == coord_word(
                    c,
                    b,
                    true,
                    64,
                ) && r.y_bits@[c]@[b] == coord_word(c, b, false, 64),
    {
        let mut x_bits: Vec<Vec<u64>> = Vec::with_capacity(NUM_CHUNKS);
        let mut y_bits: Vec<Vec<u64>> = Vec::with_capacity(NUM_CHUNKS);
        let mut c: usize = 0;
        while c < NUM_CHUNKS
            invariant
                c <= NUM_CHUNKS,
                x_bits@.len() == c,
                y_bits@.len() == c,
                forall|k: int|
                    0 <= k < c ==> (#[trigger] x_bits@[k])@.len() == COORD_BITS && y_bits@[k]@.len() == COORD_BITS,
                forall|k: int, b: int|
                    0 <= k < c && 0 <= b < COORD_BITS ==> #[trigger] x_bits@[k]@[b] == coord_word(k, b, true, 64)
                        && y_bits@[k]@[b] == coord_word(k, b, false, 64),
            decreases NUM_CHUNKS - c,
        {
            x_bits.push(chunk_words(c, true));
            y_bits.push(chunk_words(c, false));
            c = c + 1;
        }
        PrecomputedInputs { x_bits, y_bits }
    }
}

/// In the precomputed words, bit `i` of word `b` of chunk `c` is bit `b` of
/// the coordinate of pixel `64 c + i`.
pub proof fn lemma_inputs_bits(c: int, b: int, i: int)
    requires
        0 <= b < 8,
        0 <= i < 64,
    ensures
        word_bit(coord_word(c, b, true, 64), i) == coord_bit(x_of(c * 64 + i), b),
        word_bit(coord_word(c, b, false, 64), i) == coord_bit(y_of(c * 64 + i), b),
{
    lemma_coord_word_bits(c, b, true, 64);
    lemma_coord_word_bits(c, b, false, 64);
}

} // verus!
