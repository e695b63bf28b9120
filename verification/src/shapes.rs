//! Scoring a bit-parallel network against a target image. The network reads
//! one chunk of 64 pixels at a time: the eight x-coordinate words, the eight
//! y-coordinate words and a shape word; bit `i` of its output is its colour
//! for pixel `i` of the chunk.
use vstd::prelude::*;
use crate::gate::{values, Genome};
use crate::inputs::{PrecomputedInputs, CHUNK_SIZE, COORD_BITS, NUM_CHUNKS, TOTAL_PIXELS};
use crate::targets::TARGET_WORDS;

verus! {

/// Inputs of a shape network: 8 x bits, 8 y bits, the shape word.
pub const SHAPE_INPUTS: usize = 17;

/// Pixel classes of a difference image.
pub const PIXEL_BLANK: u8 = 0;
pub const PIXEL_HIT: u8 = 1;
pub const PIXEL_EXTRA: u8 = 2;
pub const PIXEL_MISSED: u8 = 3;

/// The network inputs of chunk `c`.
pub open spec fn chunk_inputs_spec(inputs: PrecomputedInputs, c: int, shape_id: u64) -> Seq<u64> {
    inputs.x_bits@[c]@ + inputs.y_bits@[c]@ + seq![shape_id]
}

/// The network's output word on chunk `c`.
pub open spec fn chunk_output(g: Genome, inputs: PrecomputedInputs, c: int, shape_id: u64) -> u64 {
    values(chunk_inputs_spec(inputs, c, shape_id), g.nodes@)[g.output_node_idx as int]
}

/// Bit `p` of a target image packed in 32-bit words.
pub open spec fn target_bit(t: Seq<u32>, p: int) -> u32 {
    (t[p / 32] >> ((p % 32) as u32)) & 1u32
}

/// Class of a pixel from the network's bit and the target's bit: black on
/// both is a hit, black only in the output is extra, black only in the
/// target is missed, white on both is blank.
pub open spec fn pixel_class_spec(actual: u64, expected: u32) -> u8 {
    if actual == 1 && expected == 1 {
        PIXEL_HIT
    } else if actual == 1 {
        PIXEL_EXTRA
    } else if expected == 1 {
        PIXEL_MISSED
    } else {
        PIXEL_BLANK
    }
}

/// Class of pixel `p` for network `g`.
pub open spec fn class_of_pixel(g: Genome, inputs: PrecomputedInputs, shape_id: u64, t: Seq<u32>, p: int) -> u8 {
    pixel_class_spec((chunk_output(g, inputs, p / 64, shape_id) >> ((p % 64) as u64)) & 1u64, target_bit(t, p))
}

/// What a shape network needs: 17 inputs, read backward.
pub open spec fn shape_network(g: Genome) -> bool {
    &&& g.num_inputs == SHAPE_INPUTS
    &&& g.wf()
}

/// Inputs laid out as `PrecomputedInputs::new` makes them.
pub open spec fn inputs_shape(inputs: PrecomputedInputs) -> bool {
    &&& inputs.x_bits@.len() == NUM_CHUNKS
    &&& inputs.y_bits@.len() == NUM_CHUNKS
    &&& forall|c: int|
        0 <= c < NUM_CHUNKS ==> (#[trigger] inputs.x_bits@[c])@.len() == COORD_BITS && inputs.y_bits@[c]@.len()
            == COORD_BITS
}

fn chunk_inputs(inputs: &PrecomputedInputs, c: usize, shape_id: u64) -> (r: Vec<u64>)
    requires
        inputs_shape(*inputs),
        c < NUM_CHUNKS,
    ensures
        r@ == chunk_inputs_spec(*inputs, c as int, shape_id),
        r@.len() == SHAPE_INPUTS,
{
    let mut v: Vec<u64> = Vec::with_capacity(SHAPE_INPUTS);
    v.extend_from_slice(inputs.x_bits[c].as_slice());
    v.extend_from_slice(inputs.y_bits[c].as_slice());
    v.push(shape_id);
    proof {
        assert forall|k: int| 0 <= k < v@.len() implies v@[k] == chunk_inputs_spec(*inputs, c as int, shape_id)[k] by {
            if k < 8 {
                assert(cloned(inputs.x_bits@[c as int]@[k], v@[k]));
            } else if k < 16 {
                assert(cloned(inputs.y_bits@[c as int]@[k - 8], v@[k]));
            }
        }
        assert(v@ =~= chunk_inputs_spec(*inputs, c as int, shape_id));
    }
    v
}

/// The class of every pixel (row by row): the difference image between the
/// network's picture and the target.
pub fn pixel_classes(genome: &Genome, inputs: &PrecomputedInputs, shape_id: u64, target: &Vec<u32>) -> (r: Vec<u8>)
    requires
        shape_network(*genome),
        inputs_shape(*inputs),
        target@.len() == TARGET_WORDS,
    ensures
        r@.len() == TOTAL_PIXELS,
        forall|p: int| 0 <= p < TOTAL_PIXELS ==> #[trigger] r@[p] == class_of_pixel(*genome, *inputs, shape_id, target@, p),
{
    let mut classes: Vec<u8> = Vec::with_capacity(TOTAL_PIXELS);
    let mut buffer: Vec<u64> = Vec::new();
    let mut c: usize = 0;
    while c < NUM_CHUNKS
        invariant
            c <= NUM_CHUNKS,
            shape_network(*genome),
            inputs_shape(*inputs),
            target@.len() == TARGET_WORDS,
            classes@.len() == c * 64,
            forall|p: int| 0 <= p < c * 64 ==> #[trigger] classes@[p] == class_of_pixel(*genome, *inputs, shape_id, target@, p),
        decreases NUM_CHUNKS - c,
    {
        let input_vec = chunk_inputs(inputs, c, shape_id);
        let out = genome.eval(input_vec.as_slice(), &mut buffer);
        let mut bit: u64 = 0;
        while bit < 64
            invariant
                c < NUM_CHUNKS,
                bit <= 64,
                target@.len() == TARGET_WORDS,
                out == chunk_output(*genome, *inputs, c as int, shape_id),
                classes@.len() == c * 64 + bit,
                forall|p: int| 0 <= p < c * 64 + bit ==> #[trigger] classes@[p] == class_of_pixel(
                    *genome,
                    *inputs,
                    shape_id,
                    target@,
                    p,
                ),
            decreases 64 - bit,
        {
            let actual = (out >> bit) & 1;
            let word = target[2 * c + (bit / 32) as usize];
            let expected = (word >> ((bit % 32) as u32)) & 1;
            let class = if actual == 1 && expected == 1 {
                PIXEL_HIT
            } else if actual == 1 {
                PIXEL_EXTRA
            } else if expected == 1 {
                PIXEL_MISSED
            } else {
                PIXEL_BLANK
            };
            proof {
                let p = c * 64 + bit;
                vstd::arithmetic::div_mod::lemma_fundamental_div_mod_converse(p, 64, c as int, bit as int);
                vstd::arithmetic::div_mod::lemma_fundamental_div_mod_converse(
                    p,
                    32,
                    2 * c + (bit / 32) as int,
                    (bit % 32) as int,
                );
                assert(class == class_of_pixel(*genome, *inputs, shape_id, target@, p));
            }
            classes.push(class);
            bit = bit + 1;
        }
        c = c + 1;
    }
    classes
}

/// Pixels among the first `n` whose class is a mistake (extra or missed).
pub open spec fn mistakes(classes: Seq<u8>, n: int) -> int
    decreases n,
{
    if n <= 0 {
        0
    } else {
        mistakes(classes, n - 1) + if classes[n - 1] == PIXEL_EXTRA || classes[n - 1] == PIXEL_MISSED {
            1int
        } else {
            0int
        }
    }
}

/// No mistake means a perfect picture: the count is zero exactly when no
/// pixel is extra or missed, and it never exceeds the number of pixels.
pub proof fn lemma_zero_error_is_perfect(classes: Seq<u8>, n: int)
    requires
        0 <= n <= classes.len(),
    ensures
        0 <= mistakes(classes, n) <= n,
        mistakes(classes, n) == 0 <==> forall|p: int|
            0 <= p < n ==> #[trigger] classes[p] != PIXEL_EXTRA && classes[p] != PIXEL_MISSED,
    decreases n,
{
    if n > 0 {
        lemma_zero_error_is_perfect(classes, n - 1);
        if mistakes(classes, n) == 0 {
            assert forall|p: int| 0 <= p < n implies #[trigger] classes[p] != PIXEL_EXTRA && classes[p]
                != PIXEL_MISSED by {
                if p < n - 1 {
                    assert(mistakes(classes, n - 1) == 0);
                }
            }
        }
    }
}

/// The network's error on the target: the number of wrong pixels.
pub fn pixel_errors(genome: &Genome, inputs: &PrecomputedInputs, shape_id: u64, target: &Vec<u32>) -> (r: u64)
    requires
        shape_network(*genome),
        inputs_shape(*inputs),
        target@.len() == TARGET_WORDS,
    ensures
        r == mistakes(
            Seq::new(TOTAL_PIXELS as nat, |p: int| class_of_pixel(*genome, *inputs, shape_id, target@, p)),
            TOTAL_PIXELS as int,
        ),
{
    let classes = pixel_classes(genome, inputs, shape_id, target);
    let ghost want = Seq::new(TOTAL_PIXELS as nat, |p: int| class_of_pixel(*genome, *inputs, shape_id, target@, p));
    assert(classes@ =~= want);
    let mut count: u64 = 0;
    let mut p: usize = 0;
    while p < TOTAL_PIXELS
        invariant
            p <= TOTAL_PIXELS,
            classes@ == want,
            want.len() == TOTAL_PIXELS,
            count == mistakes(want, p as int),
            count <= p,
        decreases TOTAL_PIXELS - p,
    {
        if classes[p] == PIXEL_EXTRA || classes[p] == PIXEL_MISSED {
            count = count + 1;
        }
        p = p + 1;
    }
    count
}

} // verus!
