//! Target images, packed one pixel per bit into 32-bit words (pixel
//! `32 * w + b` is bit `b` of word `w`; 1 = black).
use vstd::prelude::*;
use crate::inputs::{IMAGE_WIDTH, NUM_CHUNKS};

verus! {

/// Number of 32-bit words that hold one 256x256 image.
pub const TARGET_WORDS: usize = 2048;

pub struct Target {
    pub expected_output: Vec<u32>,
}

/// Bit `i` of the 32-bit word `w`, as 0 or 1.
pub open spec fn bit32(w: u32, i: int) -> u32 {
    (w >> (i as u32)) & 1u32
}

/// Whether pixel `g` of the checkerboard with squares of side `s` is black:
/// the column and row of its square have the same parity.
pub open spec fn checker_on(g: int, s: int) -> bool {
    ((g % 256) / s) % 2 == ((g / 256) / s) % 2
}

/// Whether bit `i` of `w` is set exactly for the pixels `32 * idx + i` on
/// which `on` holds, for every `i < k`.
pub open spec fn word_matches(w: u32, idx: int, s: int, k: int) -> bool {
    forall|i: int| 0 <= i < k ==> (#[trigger] bit32(w, i) == 1) == checker_on(idx * 32 + i, s)
}

pub(crate) proof fn lemma_set_bit(w: u32, k: u32, set: bool)
    requires
        k < 32,
        w >> k == 0,
    ensures
        ({
            let w2 = if set { w | (1u32 << k) } else { w };
            &&& forall|i: u32| i < k ==> (w2 >> i) & 1u32 == (w >> i) & 1u32
            &&& ((w2 >> k) & 1u32 == 1) == set
            &&& k + 1 < 32 ==> w2 >> ((k + 1) as u32) == 0
        }),
{
    let w2 = if set { w | (1u32 << k) } else { w };
    assert forall|i: u32| i < k implies (w2 >> i) & 1u32 == (w >> i) & 1u32 by {
        assert(((w | (1u32 << k)) >> i) & 1u32 == (w >> i) & 1u32) by (bit_vector)
            requires
                k < 32u32,
                i < k,
        ;
    }
    assert(((w | (1u32 << k)) >> k) & 1u32 == 1) by (bit_vector)
        requires
            k < 32u32,
    ;
    assert((w >> k) & 1u32 == 0) by (bit_vector)
        requires
            w >> k == 0u32,
    ;
    if k + 1 < 32 {
        let k1 = (k + 1) as u32;
        assert((w | (1u32 << k)) >> k1 == 0u32) by (bit_vector)
            requires
                k1 == k + 1,
                k1 < 32u32,
                w >> k == 0u32,
        ;
        assert(w >> k1 == 0u32) by (bit_vector)
            requires
                k1 == k + 1,
                k1 < 32u32,
                w >> k == 0u32,
        ;
    }
}

/// Word `idx` of the checkerboard image.
fn checker_word(idx: usize, square_size: u32) -> (w: u32)
    requires
        idx < TARGET_WORDS,
        square_size > 0,
    ensures
        word_matches(w, idx as int, square_size as int, 32),
{
    let mut w: u32 = 0;
    let mut bit: u32 = 0;
    assert(0u32 >> 0u32 == 0) by (bit_vector);
    while bit < 32
        invariant
            idx < TARGET_WORDS,
            square_size > 0,
            bit <= 32,
            bit < 32 ==> w >> bit == 0,
            word_matches(w, idx as int, square_size as int, bit as int),
        decreases 32 - bit,
    {
        let global_pixel_idx = idx * 32 + bit as usize;
        let x = global_pixel_idx as u32 % IMAGE_WIDTH;
        let y = global_pixel_idx as u32 / IMAGE_WIDTH;
        let x_cell = x / square_size;
        let y_cell = y / square_size;
        let on = (x_cell % 2) == (y_cell % 2);
        assert(on == checker_on(idx * 32 + bit, square_size as int));
        let ghost old_w = w;
        proof {
            lemma_set_bit(w, bit, on);
        }
        if on {
            w = w | (1u32 << bit);
        }
        proof {
            assert forall|i: int| 0 <= i < bit + 1 implies (#[trigger] bit32(w, i) == 1) == checker_on(
                idx * 32 + i,
                square_size as int,
            ) by {
                if i < bit {
                    assert(bit32(w, i) == bit32(old_w, i));
                }
            }
        }
        bit = bit + 1;
    }
    w
}

impl Target {
    /// A checkerboard of squares of side `square_size`; the square in the top
    /// left corner is black.
    pub fn checkerboard(square_size: u32) -> (t: Target)
        requires
            square_size > 0,
        ensures
            t.expected_output@.len() == TARGET_WORDS,
            forall|idx: int, i: int|
                0 <= idx < TARGET_WORDS && 0 <= i < 32 ==> (#[trigger] bit32(t.expected_output@[idx], i)
                    == 1) == checker_on(idx * 32 + i, square_size as int),
    {
        let mut data: Vec<u32> = Vec::with_capacity(NUM_CHUNKS * 2);
        let mut idx: usize = 0;
        while idx < NUM_CHUNKS * 2
            invariant
                square_size > 0,
                idx <= TARGET_WORDS,
                data@.len() == idx,
                forall|k: int|
                    0 <= k < idx ==> word_matches(#[trigger] data@[k], k, square_size as int, 32),
            decreases TARGET_WORDS - idx,
        {
            data.push(checker_word(idx, square_size));
            idx = idx + 1;
        }
        proof {
            assert forall|k: int, i: int|
                0 <= k < TARGET_WORDS && 0 <= i < 32 implies (#[trigger] bit32(data@[k], i) == 1)
                == checker_on(k * 32 + i, square_size as int) by {
                assert(word_matches(data@[k], k, square_size as int, 32));
            }
        }
        Target { expected_output: data }
    }
}

} // verus!
