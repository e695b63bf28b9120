//! Fitness tasks for evolved gate networks: packing output bits into bytes and
//! counting the wrong bits against a target.
use vstd::prelude::*;
use crate::gate_multi;
use crate::gate_universal;

verus! {

/// Bit `i` of `x`.
pub open spec fn bit_u8(x: u8, i: int) -> bool {
    (x >> (i as u8)) & 1u8 == 1u8
}

/// The byte whose bit `i` is `bools[i]`, for the first `k` entries.
pub open spec fn byte_from(bools: Seq<bool>, k: int) -> u8
    decreases k,
{
    if k <= 0 {
        0
    } else {
        let rest = byte_from(bools, k - 1);
        if bools[k - 1] {
            rest | (1u8 << ((k - 1) as u8))
        } else {
            rest
        }
    }
}

/// The byte made from the first eight entries (bit `i` from entry `i`).
pub open spec fn byte_of(bools: Seq<bool>) -> u8 {
    byte_from(bools, if bools.len() < 8 { bools.len() as int } else { 8 })
}

/// Packs up to eight flags into a byte, flag `i` into bit `i`.
pub fn bools_to_u8(bools: &[bool]) -> (r: u8)
    ensures
        r == byte_of(bools@),
        forall|i: int| 0 <= i < 8 ==> #[trigger] bit_u8(r, i) == (i < bools@.len() && bools@[i]),
{
    let mut val: u8 = 0;
    let n = if bools.len() < 8 { bools.len() } else { 8 };
    let mut i: usize = 0;
    while i < n
        invariant
            n <= 8,
            n <= bools@.len(),
            i <= n,
            val == byte_from(bools@, i as int),
        decreases n - i,
    {
        if bools[i] {
            val = val | (1u8 << (i as u8));
        }
        i = i + 1;
    }
    proof {
        lemma_byte_bits(bools@, n as int);
    }
    val
}

/// Bit `i` of the byte built from the first `k` flags is flag `i` (and 0 at
/// or above `k`).
proof fn lemma_byte_bits(bools: Seq<bool>, k: int)
    requires
        0 <= k <= 8,
        k <= bools.len(),
    ensures
        forall|i: int| 0 <= i < 8 ==> #[trigger] bit_u8(byte_from(bools, k), i) == (i < k && bools[i]),
    decreases k,
{
    if k > 0 {
        lemma_byte_bits(bools, k - 1);
        let rest = byte_from(bools, k - 1);
        let j = (k - 1) as u8;
        assert forall|i: int| 0 <= i < 8 implies #[trigger] bit_u8(byte_from(bools, k), i) == (i < k && bools[i]) by {
            let ii = i as u8;
            assert(bit_u8(rest, i) == (i < k - 1 && bools[i]));
            if bools[k - 1] {
                assert(((rest | (1u8 << j)) >> ii) & 1u8 == 1u8 <==> (((rest >> ii) & 1u8 == 1u8) || ii == j))
                    by (bit_vector)
                    requires
                        j < 8u8,
                        ii < 8u8,
                ;
            }
        }
    } else {
        assert forall|i: int| 0 <= i < 8 implies #[trigger] bit_u8(byte_from(bools, k), i) == (i < k && bools[i]) by {
            let ii = i as u8;
            assert((0u8 >> ii) & 1u8 == 0u8) by (bit_vector);
        }
    }
}

/// Packing the eight bits of a byte as flags and packing those flags back
/// gives the byte: `bools_to_u8` undoes `u8_to_bool_array(n, 8)`.
pub proof fn lemma_byte_round_trip(n: u8, bools: Seq<bool>)
    requires
        bools.len() == 8,
        forall|i: int| 0 <= i < 8 ==> #[trigger] bools[i] == bit_u8(n, i),
    ensures
        byte_of(bools) == n,
{
    lemma_byte_bits(bools, 8);
    let b = byte_of(bools);
    assert(bit_u8(b, 0) == bit_u8(n, 0));
    assert(bit_u8(b, 1) == bit_u8(n, 1));
    assert(bit_u8(b, 2) == bit_u8(n, 2));
    assert(bit_u8(b, 3) == bit_u8(n, 3));
    assert(bit_u8(b, 4) == bit_u8(n, 4));
    assert(bit_u8(b, 5) == bit_u8(n, 5));
    assert(bit_u8(b, 6) == bit_u8(n, 6));
    assert(bit_u8(b, 7) == bit_u8(n, 7));
    assert(b == n) by (bit_vector)
        requires
            ((b >> 0u8) & 1u8 == 1u8) == ((n >> 0u8) & 1u8 == 1u8),
            ((b >> 1u8) & 1u8 == 1u8) == ((n >> 1u8) & 1u8 == 1u8),
            ((b >> 2u8) & 1u8 == 1u8) == ((n >> 2u8) & 1u8 == 1u8),
            ((b >> 3u8) & 1u8 == 1u8) == ((n >> 3u8) & 1u8 == 1u8),
            ((b >> 4u8) & 1u8 == 1u8) == ((n >> 4u8) & 1u8 == 1u8),
            ((b >> 5u8) & 1u8 == 1u8) == ((n >> 5u8) & 1u8 == 1u8),
            ((b >> 6u8) & 1u8 == 1u8) == ((n >> 6u8) & 1u8 == 1u8),
            ((b >> 7u8) & 1u8 == 1u8) == ((n >> 7u8) & 1u8 == 1u8),
    ;
}

/// The low `bits` bits of `n` as flags, least significant first.
pub fn u8_to_bool_array(n: u8, bits: usize) -> (r: Vec<bool>)
    requires
        bits <= 8,
    ensures
        r@.len() == bits,
        forall|i: int| 0 <= i < bits ==> #[trigger] r@[i] == bit_u8(n, i),
{
    let mut arr: Vec<bool> = Vec::with_capacity(bits);
    let mut i: usize = 0;
    while i < bits
        invariant
            bits <= 8,
            i <= bits,
            arr@.len() == i,
            forall|k: int| 0 <= k < i ==> #[trigger] arr@[k] == bit_u8(n, k),
        decreases bits - i,
    {
        arr.push((n >> (i as u8)) & 1 == 1);
        i = i + 1;
    }
    arr
}

/// Bit `i` of `x`.
pub open spec fn bit_u32(x: u32, i: int) -> bool {
    (x >> (i as u32)) & 1u32 == 1u32
}

/// Number of set bits among the low `k` bits of `x`.
pub open spec fn ones_below(x: u32, k: int) -> nat
    decreases k,
{
    if k <= 0 {
        0
    } else {
        ones_below(x, k - 1) + if bit_u32(x, k - 1) {
            1nat
        } else {
            0nat
        }
    }
}

/// Number of set bits of `x`.
pub open spec fn popcount(x: u32) -> nat {
    ones_below(x, 32)
}

/// Number of set bits of `x`.
pub fn count_ones(x: u32) -> (r: u32)
    ensures
        r == popcount(x),
        r <= 32,
{
    let mut c: u32 = 0;
    let mut i: u32 = 0;
    while i < 32
        invariant
            i <= 32,
            c == ones_below(x, i as int),
            c <= i,
        decreases 32 - i,
    {
        if (x >> i) & 1 == 1 {
            c = c + 1;
        }
        i = i + 1;
    }
    c
}

/// Number of bits in which `a` and `b` differ.
pub open spec fn hamming8(a: u8, b: u8) -> nat {
    popcount((a ^ b) as u32)
}

proof fn lemma_popcount8(x: u8)
    ensures
        popcount(x as u32) <= 8,
{
    let y = x as u32;
    assert forall|k: int| 8 <= k < 32 implies !#[trigger] bit_u32(y, k) by {
        let kk = k as u32;
        assert((y >> kk) & 1u32 == 0u32) by (bit_vector)
            requires
                y < 256u32,
                8u32 <= kk < 32u32,
        ;
    }
    lemma_ones_below_bound(y, 8);
    lemma_ones_tail_zero(y, 32);
}

proof fn lemma_ones_below_bound(x: u32, k: int)
    requires
        0 <= k,
    ensures
        ones_below(x, k) <= k,
    decreases k,
{
    if k > 0 {
        lemma_ones_below_bound(x, k - 1);
    }
}

proof fn lemma_ones_tail_zero(x: u32, k: int)
    requires
        8 <= k <= 32,
        forall|j: int| 8 <= j < 32 ==> !#[trigger] bit_u32(x, j),
    ensures
        ones_below(x, k) == ones_below(x, 8),
    decreases k,
{
    if k > 8 {
        lemma_ones_tail_zero(x, k - 1);
    }
}

/// Wrong bits of an 8-bit result against `target`.
pub fn byte_errors(actual: u8, target: u8) -> (r: u32)
    ensures
        r == hamming8(actual, target),
        r <= 8,
{
    proof {
        lemma_popcount8(actual ^ target);
    }
    count_ones((actual ^ target) as u32)
}

// ---------------------------------------------------------------------------
// 4-bit adder: inputs A0..A3, B0..B3 (least significant first); the five
// outputs should spell A + B.
// ---------------------------------------------------------------------------

/// Input flags for the adder case `a + b`.
pub open spec fn adder_inputs(a: int, b: int) -> Seq<bool> {
    Seq::new(
        8,
        |i: int|
            if i < 4 {
                bit_u8(a as u8, i)
            } else {
                bit_u8(b as u8, i - 4)
            },
    )
}

/// Wrong bits of the genome's sum for `a + b`.
pub open spec fn adder_case_error(g: gate_multi::Genome, a: int, b: int) -> nat {
    hamming8(
        byte_of(gate_multi::outputs_spec(adder_inputs(a, b), g.nodes@, g.outputs@)),
        (a + b) as u8,
    )
}

/// Wrong bits over the first `c` cases, case `c` being `(c / 16) + (c % 16)`.
pub open spec fn adder_errors_upto(g: gate_multi::Genome, c: int) -> nat
    decreases c,
{
    if c <= 0 {
        0
    } else {
        adder_errors_upto(g, c - 1) + adder_case_error(g, (c - 1) / 16, (c - 1) % 16)
    }
}

/// Total Hamming error of the genome as a 4-bit adder over all 256 input
/// pairs.
pub fn adder_error(genome: &gate_multi::Genome) -> (r: u32)
    ensures
        r == adder_errors_upto(*genome, 256),
{
    let mut total: u32 = 0;
    let mut a: i32 = 0;
    while a < 16
        invariant
            0 <= a <= 16,
            total == adder_errors_upto(*genome, a * 16),
            total <= a * 16 * 8,
        decreases 16 - a,
    {
        let mut b: i32 = 0;
        while b < 16
            invariant
                0 <= a < 16,
                0 <= b <= 16,
                total == adder_errors_upto(*genome, a * 16 + b),
                total <= (a * 16 + b) * 8,
            decreases 16 - b,
        {
            let expected_sum = a + b;
            let mut inputs: Vec<bool> = Vec::with_capacity(8);
            let au = a as u8;
            let bu = b as u8;
            let mut i: u8 = 0;
            while i < 4
                invariant
                    i <= 4,
                    au == a as u8,
                    inputs@.len() == i,
                    forall|k: int| 0 <= k < i ==> #[trigger] inputs@[k] == adder_inputs(a as int, b as int)[k],
                decreases 4 - i,
            {
                inputs.push((au >> i) & 1 == 1);
                i = i + 1;
            }
            let mut i: u8 = 0;
            while i < 4
                invariant
                    i <= 4,
                    bu == b as u8,
                    inputs@.len() == 4 + i,
                    forall|k: int| 0 <= k < 4 + i ==> #[trigger] inputs@[k] == adder_inputs(a as int, b as int)[k],
                decreases 4 - i,
            {
                inputs.push((bu >> i) & 1 == 1);
                i = i + 1;
            }
            assert(inputs@ == adder_inputs(a as int, b as int));
            let outputs = genome.eval(inputs.as_slice());
            let val = bools_to_u8(outputs.as_slice());
            let e = byte_errors(val, expected_sum as u8);
            proof {
                let c = a * 16 + b;
                vstd::arithmetic::div_mod::lemma_fundamental_div_mod_converse(c as int, 16, a as int, b as int);
            }
            total = total + e;
            b = b + 1;
        }
        a = a + 1;
    }
    total
}

// ---------------------------------------------------------------------------
// Constant 42: one input held at `true`; the eight outputs should spell 42.
// ---------------------------------------------------------------------------

pub const TARGET_CONSTANT: u8 = 42;

/// The byte the genome outputs on the single input `true`.
pub open spec fn constant_output(g: gate_multi::Genome) -> u8 {
    byte_of(gate_multi::outputs_spec(seq![true], g.nodes@, g.outputs@))
}

/// The byte the genome outputs when its only input is `true`.
pub fn eval_to_u8(genome: &gate_multi::Genome) -> (r: u8)
    ensures
        r == constant_output(*genome),
{
    let input: [bool; 1] = [true];
    assert(input@ == seq![true]);
    let outputs = genome.eval(input.as_slice());
    bools_to_u8(outputs.as_slice())
}

/// Wrong bits of the genome's constant output against 42.
pub fn constant_error(genome: &gate_multi::Genome) -> (r: u32)
    ensures
        r == hamming8(constant_output(*genome), TARGET_CONSTANT),
{
    let val = eval_to_u8(genome);
    byte_errors(val, TARGET_CONSTANT)
}

// ---------------------------------------------------------------------------
// Pi digits: input the position 0..=6 as three bits, output the digit of
// 3.141592 there as a byte.
// ---------------------------------------------------------------------------

pub open spec fn pi_digit(i: int) -> u8 {
    if i == 0 { 3 }
    else if i == 1 { 1 }
    else if i == 2 { 4 }
    else if i == 3 { 1 }
    else if i == 4 { 5 }
    else if i == 5 { 9 }
    else { 2 }
}

/// Input flags for digit position `i`: its three low bits.
pub open spec fn pi_inputs(i: int) -> Seq<bool> {
    Seq::new(3, |k: int| bit_u8(i as u8, k))
}

/// The byte the genome outputs for digit position `i`.
pub open spec fn pi_output(g: gate_multi::Genome, i: int) -> u8 {
    byte_of(gate_multi::outputs_spec(pi_inputs(i), g.nodes@, g.outputs@))
}

/// Wrong bits over the first `k` digit positions.
pub open spec fn pi_errors_upto(g: gate_multi::Genome, k: int) -> nat
    decreases k,
{
    if k <= 0 {
        0
    } else {
        pi_errors_upto(g, k - 1) + hamming8(pi_output(g, k - 1), pi_digit(k - 1))
    }
}

fn pi_digit_at(i: usize) -> (d: u8)
    requires
        i < 7,
    ensures
        d == pi_digit(i as int),
{
    let digits: [u8; 7] = [3, 1, 4, 1, 5, 9, 2];
    digits[i]
}

/// The genome's output byte for each digit position.
pub fn get_all_outputs(genome: &gate_multi::Genome) -> (r: Vec<u8>)
    ensures
        r@.len() == 7,
        forall|i: int| 0 <= i < 7 ==> #[trigger] r@[i] == pi_output(*genome, i),
{
    let mut results: Vec<u8> = Vec::new();
    let mut i: usize = 0;
    while i < 7
        invariant
            i <= 7,
            results@.len() == i,
            forall|k: int| 0 <= k < i ==> #[trigger] results@[k] == pi_output(*genome, k),
        decreases 7 - i,
    {
        let input = u8_to_bool_array(i as u8, 3);
        assert(input@ == pi_inputs(i as int));
        let outputs = genome.eval(input.as_slice());
        results.push(bools_to_u8(outputs.as_slice()));
        i = i + 1;
    }
    results
}

/// Total Hamming error of the genome's outputs against the digits of pi.
pub fn pi_error(genome: &gate_multi::Genome) -> (r: u32)
    ensures
        r == pi_errors_upto(*genome, 7),
{
    let mut total: u32 = 0;
    let mut i: usize = 0;
    while i < 7
        invariant
            i <= 7,
            total == pi_errors_upto(*genome, i as int),
            total <= i * 8,
        decreases 7 - i,
    {
        let input = u8_to_bool_array(i as u8, 3);
        assert(input@ == pi_inputs(i as int));
        let outputs = genome.eval(input.as_slice());
        let val = bools_to_u8(outputs.as_slice());
        total = total + byte_errors(val, pi_digit_at(i));
        i = i + 1;
    }
    total
}

// ---------------------------------------------------------------------------
// Quine: queried with the bit position `i` (11 bits), the genome should output
// bit `i` of its own active part written out as bits.
// ---------------------------------------------------------------------------

pub const QUINE_INPUT_BITS: usize = 11;

/// Fewer active nodes than this are rejected outright.
pub const QUINE_MIN_ACTIVE: usize = 20;

/// Query flags for bit position `i`: its 11 low bits.
pub open spec fn quine_inputs(i: usize) -> Seq<bool> {
    Seq::new(11, |b: int| (i >> (b as usize)) & 1usize == 1usize)
}

/// Positions below `k` where the genome's answer differs from `target`.
pub open spec fn quine_mismatches(g: gate_universal::Genome, target: Seq<bool>, k: int) -> nat
    decreases k,
{
    if k <= 0 {
        0
    } else {
        quine_mismatches(g, target, k - 1) + if g.eval_spec(quine_inputs((k - 1) as usize)) != target[k - 1] {
            1nat
        } else {
            0nat
        }
    }
}

/// The genome's active part written out as bits (see `get_active_genome`).
pub open spec fn quine_target(g: gate_universal::Genome) -> Seq<bool> {
    let mask = g.active_spec();
    gate_universal::nodes_bits(
        crate::dag::kept(g.nodes@, mask).map_values(
            |nd: gate_universal::UniversalNode| gate_universal::remap_node(g.num_inputs, mask, nd),
        ),
    ) + gate_universal::pointer_bits(
        (if g.output_node >= g.num_inputs {
            g.num_inputs + ((crate::dag::rank(mask, g.output_node - g.num_inputs) as u16) as int)
        } else {
            g.output_node as int
        }) as u16,
    )
}

/// Quine fitness: `(wrong bits, target length)` where the target is the
/// genome's active part as bits; a genome with fewer than 20 active nodes
/// scores `(u32::MAX, 1)`.
pub fn quine_error(genome: &gate_universal::Genome) -> (r: (u32, usize))
    requires
        genome.active_reads_ok(),
        genome.num_inputs + genome.nodes@.len() <= usize::MAX,
        genome.nodes@.len() * 28 + 12 <= u32::MAX,
    ensures
        crate::dag::count_true(genome.active_spec()) < 20 ==> r == (u32::MAX, 1usize),
        crate::dag::count_true(genome.active_spec()) >= 20 ==> r.0 == quine_mismatches(
            *genome,
            quine_target(*genome),
            quine_target(*genome).len() as int,
        ) && r.1 == quine_target(*genome).len(),
{
    let active = genome.get_active_genome();
    if active.nodes.len() < QUINE_MIN_ACTIVE {
        return (u32::MAX, 1);
    }
    let target = active.to_bits();
    proof {
        lemma_nodes_bits_len(active.nodes@);
        crate::dag::lemma_count_bound(genome.active_spec());
        assert(target@ == quine_target(*genome));
    }
    if target.len() == 0 {
        return (u32::MAX, 1);
    }
    let mut error: u32 = 0;
    let mut input_bools: Vec<bool> = vec![false; QUINE_INPUT_BITS];
    let mut i: usize = 0;
    while i < target.len()
        invariant
            i <= target@.len(),
            target@ == quine_target(*genome),
            target@.len() <= u32::MAX,
            input_bools@.len() == QUINE_INPUT_BITS,
            error == quine_mismatches(*genome, target@, i as int),
            error <= i,
        decreases target@.len() - i,
    {
        let mut b: usize = 0;
        while b < QUINE_INPUT_BITS
            invariant
                b <= QUINE_INPUT_BITS,
                input_bools@.len() == QUINE_INPUT_BITS,
                forall|k: int| 0 <= k < b ==> #[trigger] input_bools@[k] == quine_inputs(i)[k],
            decreases QUINE_INPUT_BITS - b,
        {
            input_bools.set(b, (i >> b) & 1 == 1);
            b = b + 1;
        }
        assert(input_bools@ == quine_inputs(i));
        let output = genome.eval(input_bools.as_slice());
        if output != target[i] {
            error = error + 1;
        }
        i = i + 1;
    }
    (error, target.len())
}

proof fn lemma_nodes_bits_len(nodes: Seq<gate_universal::UniversalNode>)
    ensures
        gate_universal::nodes_bits(nodes).len() == 28 * nodes.len(),
    decreases nodes.len(),
{
    if nodes.len() > 0 {
        lemma_nodes_bits_len(nodes.drop_last());
    }
}

} // verus!
