//! The 32-bit word layouts in which genomes, inputs and targets are handed
//! to a compute device: every record is four words, a 64-bit value is split
//! into its low and high halves, and bit strings are packed 32 bits per
//! word, least significant bit first.
use vstd::prelude::*;
use crate::gate::{Genome, Node, Operation};
use crate::gate_universal;
use crate::quine16;
use crate::inputs::{PrecomputedInputs, NUM_CHUNKS, COORD_BITS};
use crate::targets::lemma_set_bit;

verus! {

/// Op code of an operation on the device.
pub open spec fn op_code_spec(op: Operation) -> u32 {
    match op {
        Operation::AND => 0,
        Operation::OR => 1,
        Operation::XOR => 2,
        Operation::NAND => 3,
        Operation::NOR => 4,
        Operation::NOT => 5,
        Operation::WIRE => 6,
    }
}

pub fn op_code(op: Operation) -> (r: u32)
    ensures
        r == op_code_spec(op),
{
    match op {
        Operation::AND => 0,
        Operation::OR => 1,
        Operation::XOR => 2,
        Operation::NAND => 3,
        Operation::NOR => 4,
        Operation::NOT => 5,
        Operation::WIRE => 6,
    }
}

/// The record of a node: op code, input A, input B, padding.
pub open spec fn node_record(nd: Node) -> Seq<u32> {
    seq![op_code_spec(nd.op), nd.in_a as u32, nd.in_b as u32, 0u32]
}

/// The records of `nodes`, one after the other.
pub open spec fn node_records(nodes: Seq<Node>) -> Seq<u32>
    decreases nodes.len(),
{
    if nodes.len() == 0 {
        Seq::empty()
    } else {
        node_records(nodes.drop_last()) + node_record(nodes.last())
    }
}

/// The node records of all genomes, one genome after the other.
pub open spec fn genome_records(genomes: Seq<Genome>) -> Seq<u32>
    decreases genomes.len(),
{
    if genomes.len() == 0 {
        Seq::empty()
    } else {
        genome_records(genomes.drop_last()) + node_records(genomes.last().nodes@)
    }
}

/// The info record of each genome: its output node, then padding.
pub open spec fn info_records(genomes: Seq<Genome>) -> Seq<u32>
    decreases genomes.len(),
{
    if genomes.len() == 0 {
        Seq::empty()
    } else {
        info_records(genomes.drop_last()) + seq![genomes.last().output_node_idx as u32, 0u32, 0u32, 0u32]
    }
}

/// The node records and info records of a batch of genomes.
pub fn pack_gate_genomes(genomes: &Vec<Genome>) -> (r: (Vec<u32>, Vec<u32>))
    ensures
        r.0@ == genome_records(genomes@),
        r.1@ == info_records(genomes@),
{
    let mut raw_nodes: Vec<u32> = Vec::new();
    let mut raw_infos: Vec<u32> = Vec::new();
    let mut gi: usize = 0;
    while gi < genomes.len()
        invariant
            gi <= genomes@.len(),
            raw_nodes@ == genome_records(genomes@.take(gi as int)),
            raw_infos@ == info_records(genomes@.take(gi as int)),
        decreases genomes@.len() - gi,
    {
        let g = &genomes[gi];
        let ghost before = raw_nodes@;
        let mut k: usize = 0;
        while k < g.nodes.len()
            invariant
                k <= g.nodes@.len(),
                raw_nodes@ == before + node_records(g.nodes@.take(k as int)),
            decreases g.nodes@.len() - k,
        {
            let n = g.nodes[k];
            raw_nodes.push(op_code(n.op));
            raw_nodes.push(n.in_a as u32);
            raw_nodes.push(n.in_b as u32);
            raw_nodes.push(0);
            proof {
                assert(g.nodes@.take(k + 1).drop_last() =~= g.nodes@.take(k as int));
                assert(raw_nodes@ =~= before + node_records(g.nodes@.take(k + 1)));
            }
            k = k + 1;
        }
        raw_infos.push(g.output_node_idx as u32);
        raw_infos.push(0);
        raw_infos.push(0);
        raw_infos.push(0);
        proof {
            assert(g.nodes@.take(k as int) =~= g.nodes@);
            assert(genomes@.take(gi + 1).drop_last() =~= genomes@.take(gi as int));
            assert(raw_nodes@ =~= genome_records(genomes@.take(gi + 1)));
            assert(raw_infos@ =~= info_records(genomes@.take(gi + 1)));
        }
        gi = gi + 1;
    }
    proof {
        assert(genomes@.take(gi as int) =~= genomes@);
    }
    (raw_nodes, raw_infos)
}

/// Words of one chunk of coordinates on the device.
pub const CHUNK_INPUT_WORDS: usize = 34;

/// The device words of one chunk, from its x and y coordinate words: the low
/// halves of the eight x words, of the eight y words, an all-ones shape word,
/// then the same for the high halves.
pub open spec fn chunk_input_words(xb: Seq<u64>, yb: Seq<u64>) -> Seq<u32> {
    Seq::new(
        34,
        |k: int|
            if k < 8 {
                xb[k] as u32
            } else if k < 16 {
                yb[k - 8] as u32
            } else if k == 16 {
                u32::MAX
            } else if k < 25 {
                (xb[k - 17] >> 32u64) as u32
            } else if k < 33 {
                (yb[k - 25] >> 32u64) as u32
            } else {
                u32::MAX
            },
    )
}

/// The coordinate inputs as device words: `CHUNK_INPUT_WORDS` per chunk.
pub fn pack_inputs(inputs: &PrecomputedInputs) -> (r: Vec<u32>)
    requires
        inputs.x_bits@.len() == NUM_CHUNKS,
        inputs.y_bits@.len() == NUM_CHUNKS,
        forall|c: int|
            0 <= c < NUM_CHUNKS ==> (#[trigger] inputs.x_bits@[c])@.len() == COORD_BITS && inputs.y_bits@[c]@.len()
                == COORD_BITS,
    ensures
        r@.len() == NUM_CHUNKS * CHUNK_INPUT_WORDS,
        forall|c: int, k: int|
            0 <= c < NUM_CHUNKS && 0 <= k < 34 ==> #[trigger] r@[c * 34 + k] == chunk_input_words(
                inputs.x_bits@[c]@,
                inputs.y_bits@[c]@,
            )[k],
{
    let mut out: Vec<u32> = Vec::with_capacity(NUM_CHUNKS * CHUNK_INPUT_WORDS);
    let mut i: usize = 0;
    while i < NUM_CHUNKS
        invariant
            i <= NUM_CHUNKS,
            inputs.x_bits@.len() == NUM_CHUNKS,
            inputs.y_bits@.len() == NUM_CHUNKS,
            forall|c: int|
                0 <= c < NUM_CHUNKS ==> (#[trigger] inputs.x_bits@[c])@.len() == COORD_BITS
                    && inputs.y_bits@[c]@.len() == COORD_BITS,
            out@.len() == i * 34,
            forall|c: int, k: int|
                0 <= c < i && 0 <= k < 34 ==> #[trigger] out@[c * 34 + k] == chunk_input_words(
                    inputs.x_bits@[c]@,
                    inputs.y_bits@[c]@,
                )[k],
        decreases NUM_CHUNKS - i,
    {
        let xb = &inputs.x_bits[i];
        let yb = &inputs.y_bits[i];
        let ghost before = out@;
        let ghost want = chunk_input_words(xb@, yb@);
        let mut b: usize = 0;
        while b < 8
            invariant
                b <= 8,
                xb@.len() == 8,
                out@.len() == i * 34 + b,
                out@.take(i * 34) == before,
                want == chunk_input_words(xb@, yb@),
                xb@.len() == 8,
                yb@.len() == 8,
                forall|k: int| 0 <= k < b ==> #[trigger] out@[i * 34 + k] == want[k],
            decreases 8 - b,
        {
            out.push(xb[b] as u32);
            b = b + 1;
        }
        let mut b: usize = 0;
        while b < 8
            invariant
                b <= 8,
                yb@.len() == 8,
                out@.len() == i * 34 + 8 + b,
                out@.take(i * 34) == before,
                want == chunk_input_words(xb@, yb@),
                xb@.len() == 8,
                yb@.len() == 8,
                forall|k: int| 0 <= k < 8 + b ==> #[trigger] out@[i * 34 + k] == want[k],
            decreases 8 - b,
        {
            out.push(yb[b] as u32);
            b = b + 1;
        }
        out.push(u32::MAX);
        let mut b: usize = 0;
        while b < 8
            invariant
                b <= 8,
                xb@.len() == 8,
                out@.len() == i * 34 + 17 + b,
                out@.take(i * 34) == before,
                want == chunk_input_words(xb@, yb@),
                xb@.len() == 8,
                yb@.len() == 8,
                forall|k: int| 0 <= k < 17 + b ==> #[trigger] out@[i * 34 + k] == want[k],
            decreases 8 - b,
        {
            out.push((xb[b] >> 32u64) as u32);
            b = b + 1;
        }
        let mut b: usize = 0;
        while b < 8
            invariant
                b <= 8,
                yb@.len() == 8,
                out@.len() == i * 34 + 25 + b,
                out@.take(i * 34) == before,
                want == chunk_input_words(xb@, yb@),
                xb@.len() == 8,
                yb@.len() == 8,
                forall|k: int| 0 <= k < 25 + b ==> #[trigger] out@[i * 34 + k] == want[k],
            decreases 8 - b,
        {
            out.push((yb[b] >> 32u64) as u32);
            b = b + 1;
        }
        let ghost mid = out@;
        out.push(u32::MAX);
        proof {
            assert forall|k: int| 0 <= k < 34 implies #[trigger] out@[i * 34 + k] == want[k] by {
                if k < 33 {
                    assert(out@[i * 34 + k] == mid[i * 34 + k]);
                }
            }
            assert(out@.take(i * 34) =~= before);
            assert forall|c: int, k: int|
                0 <= c < i + 1 && 0 <= k < 34 implies #[trigger] out@[c * 34 + k] == chunk_input_words(
                inputs.x_bits@[c]@,
                inputs.y_bits@[c]@,
            )[k] by {
                if c < i {
                    assert(c * 34 + k < i * 34) by (nonlinear_arith)
                        requires
                            c < i,
                            k < 34,
                    ;
                    assert(out@[c * 34 + k] == out@.take(i * 34)[c * 34 + k]);
                    assert(before[c * 34 + k] == chunk_input_words(inputs.x_bits@[c]@, inputs.y_bits@[c]@)[k]);
                } else {
                    assert(c == i);
                    assert(out@[i * 34 + k] == want[k]);
                }
            }
        }
        i = i + 1;
    }
    out
}

/// Bit `j` of the bit string packed in `words` (bit `j % 32` of word
/// `j / 32`).
pub open spec fn packed_bit(words: Seq<u32>, j: int) -> bool {
    (words[j / 32] >> ((j % 32) as u32)) & 1u32 == 1u32
}

/// Number of words that hold `n` bits.
pub open spec fn words_for(n: int) -> int {
    (n + 31) / 32
}

proof fn lemma_high_bits_clear(w: u32, n: u32)
    requires
        n < 32,
        w >> n == 0,
    ensures
        forall|k: u32| n <= k < 32 ==> #[trigger] ((w >> k) & 1u32) == 0u32,
{
    assert forall|k: u32| n <= k < 32 implies #[trigger] ((w >> k) & 1u32) == 0u32 by {
        assert((w >> k) & 1u32 == 0u32) by (bit_vector)
            requires
                n < 32u32,
                w >> n == 0u32,
                n <= k,
                k < 32u32,
        ;
    }
}

/// The bits packed 32 to a word, least significant first; the last word is
/// padded with 0.
pub fn pack_bits(bits: &Vec<bool>) -> (r: Vec<u32>)
    ensures
        r@.len() == words_for(bits@.len() as int),
        forall|j: int| 0 <= j < bits@.len() ==> #[trigger] packed_bit(r@, j) == bits@[j],
        forall|j: int| bits@.len() <= j < 32 * r@.len() ==> !#[trigger] packed_bit(r@, j),
{
    let mut packed: Vec<u32> = Vec::new();
    let mut current_word: u32 = 0;
    let mut bit_count: u32 = 0;
    let mut i: usize = 0;
    assert(0u32 >> 0u32 == 0) by (bit_vector);
    while i < bits.len()
        invariant
            i <= bits@.len(),
            bit_count < 32,
            i == 32 * packed@.len() + bit_count,
            current_word >> bit_count == 0,
            forall|j: int| 0 <= j < 32 * packed@.len() ==> #[trigger] packed_bit(packed@, j) == bits@[j],
            forall|k: u32| k < bit_count ==> (#[trigger] (current_word >> k) & 1u32 == 1u32) == bits@[32
                * packed@.len() + k],
        decreases bits@.len() - i,
    {
        let b = bits[i];
        let ghost old_word = current_word;
        proof {
            lemma_set_bit(current_word, bit_count, b);
        }
        if b {
            current_word = current_word | (1u32 << bit_count);
        }
        assert forall|k: u32| k < bit_count + 1 implies (#[trigger] (current_word >> k) & 1u32 == 1u32)
            == bits@[32 * packed@.len() + k] by {
            if k < bit_count {
                assert((current_word >> k) & 1u32 == (old_word >> k) & 1u32);
            }
        }
        bit_count = bit_count + 1;
        if bit_count == 32 {
            let ghost before = packed@;
            let w = current_word;
            packed.push(w);
            proof {
                assert forall|j: int| 0 <= j < 32 * packed@.len() implies #[trigger] packed_bit(packed@, j)
                    == bits@[j] by {
                    if j < 32 * before.len() {
                        vstd::arithmetic::div_mod::lemma_fundamental_div_mod(j, 32);
                        assert(j / 32 < before.len());
                        assert(packed_bit(before, j) == bits@[j]);
                        assert(packed@[j / 32] == before[j / 32]);
                    } else {
                        let k = (j - 32 * before.len()) as u32;
                        vstd::arithmetic::div_mod::lemma_fundamental_div_mod_converse(
                            j,
                            32,
                            before.len() as int,
                            j - 32 * before.len(),
                        );
                        assert(j / 32 == before.len());
                        assert(j % 32 == k);
                        assert(packed@[j / 32] == w);
                        assert((w >> k) & 1u32 == 1u32 <==> bits@[32 * before.len() + k]);
                    }
                }
            }
            current_word = 0;
            bit_count = 0;
            assert(0u32 >> 0u32 == 0) by (bit_vector);
        }
        i = i + 1;
    }
    if bit_count > 0 {
        let ghost before = packed@;
        let w = current_word;
        proof {
            lemma_high_bits_clear(w, bit_count);
        }
        packed.push(w);
        proof {
            assert forall|j: int| 0 <= j < bits@.len() implies #[trigger] packed_bit(packed@, j) == bits@[j] by {
                if j < 32 * before.len() {
                    vstd::arithmetic::div_mod::lemma_fundamental_div_mod(j, 32);
                    assert(j / 32 < before.len());
                    assert(packed_bit(before, j) == bits@[j]);
                    assert(packed@[j / 32] == before[j / 32]);
                } else {
                    let k = (j - 32 * before.len()) as u32;
                    vstd::arithmetic::div_mod::lemma_fundamental_div_mod_converse(
                        j,
                        32,
                        before.len() as int,
                        j - 32 * before.len(),
                    );
                    assert(j / 32 == before.len());
                    assert(j % 32 == k);
                    assert(packed@[j / 32] == w);
                    assert((w >> k) & 1u32 == 1u32 <==> bits@[32 * before.len() + k]);
                }
            }
            assert forall|j: int| bits@.len() <= j < 32 * packed@.len() implies !#[trigger] packed_bit(
                packed@,
                j,
            ) by {
                let k = (j - 32 * before.len()) as u32;
                vstd::arithmetic::div_mod::lemma_fundamental_div_mod_converse(
                    j,
                    32,
                    before.len() as int,
                    j - 32 * before.len(),
                );
                assert(j / 32 == before.len());
                assert(j % 32 == k);
                assert(bit_count <= k);
                assert((w >> k) & 1u32 == 0u32);
            }
        }
    }
    packed
}

/// Nodes per genome on the device; shorter genomes are padded with zero
/// records.
pub const DEVICE_NODES: usize = 100;

/// The record of a table node: table, input A, input B, padding.
pub open spec fn unode_record(nd: gate_universal::UniversalNode) -> Seq<u32> {
    seq![nd.table as u32, nd.in_a as u32, nd.in_b as u32, 0u32]
}

pub open spec fn unode_records(nodes: Seq<gate_universal::UniversalNode>) -> Seq<u32>
    decreases nodes.len(),
{
    if nodes.len() == 0 {
        Seq::empty()
    } else {
        unode_records(nodes.drop_last()) + unode_record(nodes.last())
    }
}

/// The records of `nodes`, padded with zero records up to `DEVICE_NODES`.
pub open spec fn padded_records(nodes: Seq<gate_universal::UniversalNode>) -> Seq<u32> {
    unode_records(nodes) + Seq::new(
        if nodes.len() < 100 { (4 * (100 - nodes.len())) as nat } else { 0 },
        |i: int| 0u32,
    )
}

pub open spec fn batch_records(genomes: Seq<gate_universal::Genome>) -> Seq<u32>
    decreases genomes.len(),
{
    if genomes.len() == 0 {
        Seq::empty()
    } else {
        batch_records(genomes.drop_last()) + padded_records(genomes.last().nodes@)
    }
}

/// Words taken by the packed targets of genomes `0..i`.
pub open spec fn words_before(targets: Seq<Vec<bool>>, i: int) -> int
    decreases i,
{
    if i <= 0 {
        0
    } else {
        words_before(targets, i - 1) + words_for(targets[i - 1]@.len() as int)
    }
}

proof fn lemma_words_before_mono(targets: Seq<Vec<bool>>, i: int, n: int)
    requires
        0 <= i <= n,
    ensures
        0 <= words_before(targets, i) <= words_before(targets, n),
    decreases n - i,
{
    if i < n {
        lemma_words_before_mono(targets, i, n - 1);
    } else {
        lemma_words_before_nonneg(targets, i);
    }
}

proof fn lemma_words_before_nonneg(targets: Seq<Vec<bool>>, i: int)
    ensures
        words_before(targets, i) >= 0,
    decreases i,
{
    if i > 0 {
        lemma_words_before_nonneg(targets, i - 1);
    }
}

proof fn lemma_packed_shift(a: Seq<u32>, b: Seq<u32>, j: int)
    requires
        0 <= j < 32 * b.len(),
    ensures
        packed_bit(a + b, 32 * a.len() + j) == packed_bit(b, j),
{
    vstd::arithmetic::div_mod::lemma_fundamental_div_mod(j, 32);
    vstd::arithmetic::div_mod::lemma_fundamental_div_mod_converse(
        32 * a.len() + j,
        32,
        a.len() + j / 32,
        j % 32,
    );
}

proof fn lemma_packed_prefix(a: Seq<u32>, b: Seq<u32>, j: int)
    requires
        0 <= j < 32 * a.len(),
    ensures
        packed_bit(a + b, j) == packed_bit(a, j),
{
    vstd::arithmetic::div_mod::lemma_fundamental_div_mod(j, 32);
}

/// The genomes, their target bit strings and their info records as device
/// words. Genome `i` gets `DEVICE_NODES` node records (at least); its
/// targets are packed from word `words_before(i)` on, and its info record is
/// its output node, the first bit of its targets, their length, padding.
pub fn pack_universal_batch(genomes: &Vec<gate_universal::Genome>, target_bits: &Vec<Vec<bool>>) -> (r: (
    Vec<u32>,
    Vec<u32>,
    Vec<u32>,
))
    requires
        genomes@.len() == target_bits@.len(),
        32 * words_before(target_bits@, target_bits@.len() as int) <= usize::MAX,
    ensures
        r.0@ == batch_records(genomes@),
        r.1@.len() == words_before(target_bits@, target_bits@.len() as int),
        forall|i: int, j: int|
            0 <= i < target_bits@.len() && 0 <= j < target_bits@[i]@.len() ==> #[trigger] packed_bit(
                r.1@,
                32 * words_before(target_bits@, i) + j,
            ) == target_bits@[i]@[j],
        forall|i: int, j: int|
            0 <= i < target_bits@.len() && target_bits@[i]@.len() <= j < 32 * words_for(
                target_bits@[i]@.len() as int,
            ) ==> !#[trigger] packed_bit(r.1@, 32 * words_before(target_bits@, i) + j),
        r.2@.len() == 4 * genomes@.len(),
        forall|i: int|
            0 <= i < genomes@.len() ==> {
                &&& #[trigger] r.2@[4 * i] == genomes@[i].output_node as u32
                &&& r.2@[4 * i + 1] == (32 * words_before(target_bits@, i)) as u32
                &&& r.2@[4 * i + 2] == target_bits@[i]@.len() as u32
                &&& r.2@[4 * i + 3] == 0
            },
{
    let mut raw_nodes: Vec<u32> = Vec::new();
    let mut raw_targets: Vec<u32> = Vec::new();
    let mut raw_infos: Vec<u32> = Vec::new();
    let ghost tb = target_bits@;
    let ghost n = tb.len() as int;
    let mut gi: usize = 0;
    while gi < genomes.len()
        invariant
            gi <= genomes@.len(),
            genomes@.len() == tb.len(),
            tb == target_bits@,
            n == tb.len(),
            32 * words_before(tb, n) <= usize::MAX,
            raw_nodes@ == batch_records(genomes@.take(gi as int)),
            raw_targets@.len() == words_before(tb, gi as int),
            forall|i: int, j: int|
                0 <= i < gi && 0 <= j < tb[i]@.len() ==> #[trigger] packed_bit(
                    raw_targets@,
                    32 * words_before(tb, i) + j,
                ) == tb[i]@[j],
            forall|i: int, j: int|
                0 <= i < gi && tb[i]@.len() <= j < 32 * words_for(tb[i]@.len() as int) ==> !#[trigger] packed_bit(
                    raw_targets@,
                    32 * words_before(tb, i) + j,
                ),
            raw_infos@.len() == 4 * gi,
            forall|i: int|
                0 <= i < gi ==> {
                    &&& #[trigger] raw_infos@[4 * i] == genomes@[i].output_node as u32
                    &&& raw_infos@[4 * i + 1] == (32 * words_before(tb, i)) as u32
                    &&& raw_infos@[4 * i + 2] == tb[i]@.len() as u32
                    &&& raw_infos@[4 * i + 3] == 0
                },
        decreases genomes@.len() - gi,
    {
        let g = &genomes[gi];
        let ghost before_nodes = raw_nodes@;
        let mut k: usize = 0;
        while k < g.nodes.len()
            invariant
                k <= g.nodes@.len(),
                raw_nodes@ == before_nodes + unode_records(g.nodes@.take(k as int)),
            decreases g.nodes@.len() - k,
        {
            let nd = g.nodes[k];
            raw_nodes.push(nd.table as u32);
            raw_nodes.push(nd.in_a as u32);
            raw_nodes.push(nd.in_b as u32);
            raw_nodes.push(0);
            proof {
                assert(g.nodes@.take(k + 1).drop_last() =~= g.nodes@.take(k as int));
                assert(raw_nodes@ =~= before_nodes + unode_records(g.nodes@.take(k + 1)));
            }
            k = k + 1;
        }
        proof {
            assert(g.nodes@.take(k as int) =~= g.nodes@);
        }
        let ghost with_nodes = raw_nodes@;
        let mut count = k;
        while count < DEVICE_NODES
            invariant
                k == g.nodes@.len(),
                k <= count <= (if k < 100 { 100 } else { k }),
                raw_nodes@.len() == with_nodes.len() + 4 * (count - k),
                raw_nodes@.take(with_nodes.len() as int) == with_nodes,
                forall|q: int| with_nodes.len() <= q < raw_nodes@.len() ==> #[trigger] raw_nodes@[q] == 0,
            decreases 100 - count,
        {
            raw_nodes.push(0);
            raw_nodes.push(0);
            raw_nodes.push(0);
            raw_nodes.push(0);
            count = count + 1;
        }
        proof {
            assert(raw_nodes@ =~= with_nodes + Seq::new(
                if k < 100 { (4 * (100 - k)) as nat } else { 0 },
                |i: int| 0u32,
            ));
            assert(genomes@.take(gi + 1).drop_last() =~= genomes@.take(gi as int));
            assert(raw_nodes@ =~= batch_records(genomes@.take(gi + 1)));
        }
        let bits = &target_bits[gi];
        let packed = pack_bits(bits);
        proof {
            lemma_words_before_mono(tb, gi + 1, n);
        }
        let start_bit = (raw_targets.len() * 32) as u32;
        let len_bits = bits.len() as u32;
        let ghost before_targets = raw_targets@;
        let mut w: usize = 0;
        while w < packed.len()
            invariant
                w <= packed@.len(),
                raw_targets@ == before_targets + packed@.take(w as int),
            decreases packed@.len() - w,
        {
            raw_targets.push(packed[w]);
            proof {
                assert(packed@.take(w + 1) =~= packed@.take(w as int).push(packed@[w as int]));
                assert(raw_targets@ =~= before_targets + packed@.take(w + 1));
            }
            w = w + 1;
        }
        proof {
            assert(packed@.take(w as int) =~= packed@);
            let gii = gi as int;
            assert forall|i: int, j: int|
                0 <= i < gii + 1 && 0 <= j < tb[i]@.len() implies #[trigger] packed_bit(
                raw_targets@,
                32 * words_before(tb, i) + j,
            ) == tb[i]@[j] by {
                if i < gii {
                    lemma_words_before_mono(tb, i + 1, gii);
                    lemma_words_before_nonneg(tb, i);
                    let len = tb[i]@.len() as int;
                    vstd::arithmetic::div_mod::lemma_fundamental_div_mod(len + 31, 32);
                    assert(j < 32 * words_for(len));
                    assert(words_before(tb, i + 1) == words_before(tb, i) + words_for(len));
                    lemma_packed_prefix(before_targets, packed@, 32 * words_before(tb, i) + j);
                } else {
                    assert(j < 32 * packed@.len());
                    lemma_packed_shift(before_targets, packed@, j);
                }
            }
            assert forall|i: int, j: int|
                0 <= i < gii + 1 && tb[i]@.len() <= j < 32 * words_for(tb[i]@.len() as int) implies !#[trigger] packed_bit(
                raw_targets@,
                32 * words_before(tb, i) + j,
            ) by {
                if i < gii {
                    lemma_words_before_mono(tb, i + 1, gii);
                    lemma_words_before_nonneg(tb, i);
                    let len = tb[i]@.len() as int;
                    assert(words_before(tb, i + 1) == words_before(tb, i) + words_for(len));
                    lemma_packed_prefix(before_targets, packed@, 32 * words_before(tb, i) + j);
                } else {
                    lemma_packed_shift(before_targets, packed@, j);
                }
            }
        }
        let ghost before_infos = raw_infos@;
        raw_infos.push(g.output_node as u32);
        raw_infos.push(start_bit);
        raw_infos.push(len_bits);
        raw_infos.push(0);
        proof {
            let gii = gi as int;
            assert(start_bit == (32 * words_before(tb, gii)) as u32);
            assert forall|i: int| 0 <= i < gii + 1 implies {
                &&& #[trigger] raw_infos@[4 * i] == genomes@[i].output_node as u32
                &&& raw_infos@[4 * i + 1] == (32 * words_before(tb, i)) as u32
                &&& raw_infos@[4 * i + 2] == tb[i]@.len() as u32
                &&& raw_infos@[4 * i + 3] == 0
            } by {
                if i < gii {
                    assert(raw_infos@[4 * i] == before_infos[4 * i]);
                    assert(raw_infos@[4 * i + 1] == before_infos[4 * i + 1]);
                    assert(raw_infos@[4 * i + 2] == before_infos[4 * i + 2]);
                    assert(raw_infos@[4 * i + 3] == before_infos[4 * i + 3]);
                }
            }
        }
        gi = gi + 1;
    }
    proof {
        assert(genomes@.take(gi as int) =~= genomes@);
    }
    (raw_nodes, raw_targets, raw_infos)
}

/// The record of a grid cell: op, direction A, direction B, flags.
pub open spec fn cell_record(c: quine16::Cell) -> Seq<u32> {
    seq![c.op, c.dir_a, c.dir_b, c.flags]
}

pub open spec fn cell_records(cells: Seq<quine16::Cell>) -> Seq<u32>
    decreases cells.len(),
{
    if cells.len() == 0 {
        Seq::empty()
    } else {
        cell_records(cells.drop_last()) + cell_record(cells.last())
    }
}

pub open spec fn organism_records(genomes: Seq<Vec<quine16::Cell>>) -> Seq<u32>
    decreases genomes.len(),
{
    if genomes.len() == 0 {
        Seq::empty()
    } else {
        organism_records(genomes.drop_last()) + cell_records(genomes.last()@)
    }
}

/// The cells of a batch of grid organisms, one record per cell, one
/// organism after the other.
pub fn pack_cell_genomes(genomes: &Vec<Vec<quine16::Cell>>) -> (r: Vec<u32>)
    ensures
        r@ == organism_records(genomes@),
{
    let mut raw: Vec<u32> = Vec::new();
    let mut gi: usize = 0;
    while gi < genomes.len()
        invariant
            gi <= genomes@.len(),
            raw@ == organism_records(genomes@.take(gi as int)),
        decreases genomes@.len() - gi,
    {
        let cells = &genomes[gi];
        let ghost before = raw@;
        let mut k: usize = 0;
        while k < cells.len()
            invariant
                k <= cells@.len(),
                raw@ == before + cell_records(cells@.take(k as int)),
            decreases cells@.len() - k,
        {
            let c = cells[k];
            raw.push(c.op);
            raw.push(c.dir_a);
            raw.push(c.dir_b);
            raw.push(c.flags);
            proof {
                assert(cells@.take(k + 1).drop_last() =~= cells@.take(k as int));
                assert(raw@ =~= before + cell_records(cells@.take(k + 1)));
            }
            k = k + 1;
        }
        proof {
            assert(cells@.take(k as int) =~= cells@);
            assert(genomes@.take(gi + 1).drop_last() =~= genomes@.take(gi as int));
            assert(raw@ =~= organism_records(genomes@.take(gi + 1)));
        }
        gi = gi + 1;
    }
    proof {
        assert(genomes@.take(gi as int) =~= genomes@);
    }
    raw
}

} // verus!
