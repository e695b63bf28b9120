//! Cartesian genetic programming over 64-bit words: a feed-forward network of
//! gates, each reading two earlier values, evaluated on 64 pixels at once.
//!
//! The value space of a genome is `[inputs..., node outputs...]`: index `i <
//! num_inputs` is system input `i`, index `num_inputs + k` is node `k`.
use vstd::prelude::*;
use rand_chacha::ChaCha8Rng;
use crate::random::{random_usize_below, random_i32_below, random_ratio};
use crate::dag::{
    count_true, lemma_count_bound, reads_node, closed_under_reads, is_active, active_mask, rank, kept,
    rank_taken, lemma_rank_monotone, lemma_rank_bound, lemma_kept, lemma_active_closed, mark_active,
    count_marked, all_set, lemma_all_set_rank, lemma_kept_all,
};

verus! {

#[derive(Clone, Copy, Debug, PartialEq, Eq, Structural)]
#[allow(non_camel_case_types, clippy::upper_case_acronyms)]
pub enum Operation {
    AND,
    OR,
    XOR,
    NAND,
    NOR,
    NOT,
    WIRE,
}

/// Bit-parallel meaning of each operation (`NOT` and `WIRE` use input A only).
pub open spec fn op_eval(op: Operation, a: u64, b: u64) -> u64 {
    match op {
        Operation::AND => a & b,
        Operation::OR => a | b,
        Operation::XOR => a ^ b,
        Operation::NAND => !(a & b),
        Operation::NOR => !(a | b),
        Operation::NOT => !a,
        Operation::WIRE => a,
    }
}

/// Bit `i` of a 64-bit word.
pub open spec fn bit64(x: u64, i: u64) -> bool {
    (x >> i) & 1u64 == 1u64
}

/// How `&`, `|`, `^` and `!` act on each bit of a word.
proof fn lemma_bitwise_bits()
    by (bit_vector)
    ensures
        forall|a: u64, b: u64, i: u64| i < 64 ==> #[trigger] bit64(a & b, i) == (bit64(a, i) && bit64(b, i)),
        forall|a: u64, b: u64, i: u64| i < 64 ==> #[trigger] bit64(a | b, i) == (bit64(a, i) || bit64(b, i)),
        forall|a: u64, b: u64, i: u64| i < 64 ==> #[trigger] bit64(a ^ b, i) == (bit64(a, i) != bit64(b, i)),
        forall|a: u64, i: u64| i < 64 ==> #[trigger] bit64(!a, i) == !bit64(a, i),
{
}

/// Each operation works on the 64 bit lanes of its words independently, as
/// its name says on every lane: AND is true exactly when both input bits
/// are, OR exactly when at least one is, XOR exactly when they differ, NAND
/// and NOR are their negations, NOT inverts input A and WIRE copies it.
pub proof fn lemma_op_lanes(a: u64, b: u64, i: u64)
    requires
        i < 64,
    ensures
        bit64(op_eval(Operation::AND, a, b), i) == (bit64(a, i) && bit64(b, i)),
        bit64(op_eval(Operation::OR, a, b), i) == (bit64(a, i) || bit64(b, i)),
        bit64(op_eval(Operation::XOR, a, b), i) == (bit64(a, i) != bit64(b, i)),
        bit64(op_eval(Operation::NAND, a, b), i) == !(bit64(a, i) && bit64(b, i)),
        bit64(op_eval(Operation::NOR, a, b), i) == !(bit64(a, i) || bit64(b, i)),
        bit64(op_eval(Operation::NOT, a, b), i) == !bit64(a, i),
        bit64(op_eval(Operation::WIRE, a, b), i) == bit64(a, i),
{
    lemma_bitwise_bits();
    assert(bit64(a & b, i) == (bit64(a, i) && bit64(b, i)));
    assert(bit64(a | b, i) == (bit64(a, i) || bit64(b, i)));
    assert(bit64(a ^ b, i) == (bit64(a, i) != bit64(b, i)));
    assert(bit64(!(a & b), i) == !bit64(a & b, i));
    assert(bit64(!(a | b), i) == !bit64(a | b, i));
    assert(bit64(!a, i) == !bit64(a, i));
}

/// The operation numbered `i` in the order AND, OR, XOR, NAND, NOR, NOT;
/// every other number is WIRE.
pub open spec fn op_from_index_spec(i: i32) -> Operation {
    if i == 0 {
        Operation::AND
    } else if i == 1 {
        Operation::OR
    } else if i == 2 {
        Operation::XOR
    } else if i == 3 {
        Operation::NAND
    } else if i == 4 {
        Operation::NOR
    } else if i == 5 {
        Operation::NOT
    } else {
        Operation::WIRE
    }
}

impl Operation {
    pub fn from_index(i: i32) -> (r: Operation)
        ensures
            r == op_from_index_spec(i),
    {
        match i {
            0 => Operation::AND,
            1 => Operation::OR,
            2 => Operation::XOR,
            3 => Operation::NAND,
            4 => Operation::NOR,
            5 => Operation::NOT,
            _ => Operation::WIRE,
        }
    }

    /// A uniformly drawn operation.
    pub fn random(rng: &mut ChaCha8Rng) -> (r: Operation)
        ensures
            exists|i: i32| 0 <= i < 7 && r == op_from_index_spec(i),
    {
        let i = random_i32_below(rng, 7);
        Operation::from_index(i)
    }

    #[inline(always)]
    pub fn eval(&self, a: u64, b: u64) -> (r: u64)
        ensures
            r == op_eval(*self, a, b),
    {
        match self {
            Operation::AND => a & b,
            Operation::OR => a | b,
            Operation::XOR => a ^ b,
            Operation::NAND => !(a & b),
            Operation::NOR => !(a | b),
            Operation::NOT => !a,
            Operation::WIRE => a,
        }
    }
}

#[derive(Clone, Copy, Debug)]
pub struct Node {
    pub op: Operation,
    /// Index of input A in the value space.
    pub in_a: usize,
    /// Index of input B in the value space.
    pub in_b: usize,
}

#[derive(Clone, Debug)]
pub struct Genome {
    pub num_inputs: usize,
    pub nodes: Vec<Node>,
    pub output_node_idx: usize,
}

/// Values computed from `inputs` by `nodes`: the inputs followed by one value
/// per node, each node reading two earlier values.
pub open spec fn values(inputs: Seq<u64>, nodes: Seq<Node>) -> Seq<u64>
    decreases nodes.len(),
{
    if nodes.len() == 0 {
        inputs
    } else {
        let v = values(inputs, nodes.drop_last());
        let n = nodes.last();
        v.push(op_eval(n.op, v[n.in_a as int], v[n.in_b as int]))
    }
}

/// Every node reads only values computed before it, given `num_values`
/// values ahead of the nodes.
pub open spec fn reads_backward(num_values: int, nodes: Seq<Node>) -> bool {
    forall|k: int|
        0 <= k < nodes.len() ==> (#[trigger] nodes[k]).in_a < num_values + k && nodes[k].in_b
            < num_values + k
}

proof fn lemma_values_len(inputs: Seq<u64>, nodes: Seq<Node>)
    ensures
        values(inputs, nodes).len() == inputs.len() + nodes.len(),
    decreases nodes.len(),
{
    if nodes.len() > 0 {
        lemma_values_len(inputs, nodes.drop_last());
    }
}

/// Values are computed incrementally: a prefix of the nodes yields a prefix
/// of the values.
proof fn lemma_values_prefix(inputs: Seq<u64>, nodes: Seq<Node>, k: int)
    requires
        0 <= k <= nodes.len(),
    ensures
        values(inputs, nodes.subrange(0, k)) == values(inputs, nodes).subrange(0, inputs.len() + k),
    decreases nodes.len(),
{
    lemma_values_len(inputs, nodes);
    if k == nodes.len() {
        assert(nodes.subrange(0, k) == nodes);
    } else {
        let d = nodes.drop_last();
        assert(d.subrange(0, k) == nodes.subrange(0, k));
        lemma_values_prefix(inputs, d, k);
        lemma_values_len(inputs, d);
    }
}

/// Value `inputs.len() + k` is node `k` applied to the values before it.
proof fn lemma_values_node(inputs: Seq<u64>, nodes: Seq<Node>, k: int)
    requires
        0 <= k < nodes.len(),
        nodes[k].in_a < inputs.len() + k,
        nodes[k].in_b < inputs.len() + k,
    ensures
        values(inputs, nodes)[inputs.len() + k] == op_eval(
            nodes[k].op,
            values(inputs, nodes)[nodes[k].in_a as int],
            values(inputs, nodes)[nodes[k].in_b as int],
        ),
{
    let pre = nodes.subrange(0, k + 1);
    let l = inputs.len();
    lemma_values_prefix(inputs, nodes, k + 1);
    lemma_values_prefix(inputs, nodes, k);
    assert(pre.drop_last() == nodes.subrange(0, k));
    assert(pre.last() == nodes[k]);
    lemma_values_len(inputs, nodes.subrange(0, k));
    lemma_values_len(inputs, nodes);
    let full = values(inputs, nodes);
    let vk = values(inputs, nodes.subrange(0, k));
    let vpre = values(inputs, pre);
    assert(vpre == vk.push(op_eval(nodes[k].op, vk[nodes[k].in_a as int], vk[nodes[k].in_b as int])));
    assert(full[l + k] == vpre[l + k]);
    assert(vk[nodes[k].in_a as int] == full[nodes[k].in_a as int]);
    assert(vk[nodes[k].in_b as int] == full[nodes[k].in_b as int]);
}

/// Inputs come first in the values.
proof fn lemma_values_inputs(inputs: Seq<u64>, nodes: Seq<Node>, i: int)
    requires
        0 <= i < inputs.len(),
    ensures
        values(inputs, nodes)[i] == inputs[i],
{
    lemma_values_prefix(inputs, nodes, 0);
    assert(nodes.subrange(0, 0) == Seq::<Node>::empty());
    lemma_values_len(inputs, nodes);
}

/// Index `i` of the value space after dropping the unmasked nodes.
pub open spec fn remap(num_inputs: usize, mask: Seq<bool>, i: usize) -> int {
    if i >= num_inputs {
        num_inputs + rank(mask, i - num_inputs)
    } else {
        i as int
    }
}

/// `nd` with its inputs remapped.
pub open spec fn remap_node(num_inputs: usize, mask: Seq<bool>, nd: Node) -> Node {
    Node {
        op: nd.op,
        in_a: remap(num_inputs, mask, nd.in_a) as usize,
        in_b: remap(num_inputs, mask, nd.in_b) as usize,
    }
}

/// The active nodes in order, with their inputs remapped.
pub open spec fn compacted_nodes(num_inputs: usize, nodes: Seq<Node>, mask: Seq<bool>) -> Seq<Node> {
    kept(nodes, mask).map_values(|nd: Node| remap_node(num_inputs, mask, nd))
}

/// In a well-formed genome every node's reads are in range, so it can be
/// compacted.
pub proof fn lemma_wf_reads_in_range(g: &Genome)
    requires
        g.wf(),
    ensures
        g.active_reads_in_range(),
{
}

/// Compacting a network whose nodes read backward gives one whose nodes read
/// backward, with the output in range.
pub proof fn lemma_compact_wf(ni: usize, nodes: Seq<Node>, out: usize)
    requires
        reads_backward(ni as int, nodes),
        out < ni + nodes.len(),
        ni + nodes.len() <= usize::MAX,
    ensures
        reads_backward(ni as int, compacted_nodes(ni, nodes, active_mask(ni, node_reads(nodes), out))),
        remap(ni, active_mask(ni, node_reads(nodes), out), out) < ni + compacted_nodes(
            ni,
            nodes,
            active_mask(ni, node_reads(nodes), out),
        ).len(),
{
    let mask = active_mask(ni, node_reads(nodes), out);
    let c = compacted_nodes(ni, nodes, mask);
    lemma_kept(nodes, mask);
    lemma_count_bound(mask);
    let kn = kept(nodes, mask);
    assert forall|p: int| 0 <= p < c.len() implies (#[trigger] c[p]).in_a < ni + p && c[p].in_b < ni + p by {
        assert(rank_taken(mask, p));
        let j = choose|j: int| 0 <= j < mask.len() && mask[j] && #[trigger] rank(mask, j) == p;
        assert(kn[p] == nodes[j]);
        assert(c[p] == remap_node(ni, mask, nodes[j]));
        let nd = nodes[j];
        if nd.in_a >= ni {
            let k = nd.in_a - ni;
            assert(reads_node(ni, node_reads(nodes), j, k as int));
            lemma_active_closed(ni, node_reads(nodes), out, j, k as int);
            lemma_rank_monotone(mask, k as int, j);
            lemma_rank_bound(mask, k as int);
        }
        if nd.in_b >= ni {
            let k = nd.in_b - ni;
            assert(reads_node(ni, node_reads(nodes), j, k as int));
            lemma_active_closed(ni, node_reads(nodes), out, j, k as int);
            lemma_rank_monotone(mask, k as int, j);
            lemma_rank_bound(mask, k as int);
        }
    }
    if out >= ni {
        let j = out - ni;
        assert forall|s: Set<int>| #[trigger] closed_under_reads(ni, node_reads(nodes), out, s) implies s.contains(j as int) by {}
        assert(mask[j as int]);
        lemma_rank_bound(mask, j as int);
    }
}

/// Each active node computes the same value in the compacted network, at its
/// rank.
proof fn lemma_compact_node_value(inputs: Seq<u64>, ni: usize, nodes: Seq<Node>, out: usize, j: int)
    requires
        inputs.len() == ni,
        reads_backward(ni as int, nodes),
        out < ni + nodes.len(),
        ni + nodes.len() <= usize::MAX,
        0 <= j < nodes.len(),
        active_mask(ni, node_reads(nodes), out)[j],
    ensures
        values(inputs, compacted_nodes(ni, nodes, active_mask(ni, node_reads(nodes), out)))[ni + rank(
            active_mask(ni, node_reads(nodes), out),
            j,
        )] == values(inputs, nodes)[ni + j],
    decreases j,
{
    let mask = active_mask(ni, node_reads(nodes), out);
    let c = compacted_nodes(ni, nodes, mask);
    lemma_kept(nodes, mask);
    lemma_compact_wf(ni, nodes, out);
    lemma_count_bound(mask);
    let p = rank(mask, j);
    let nd = nodes[j];
    assert(c[p as int] == remap_node(ni, mask, nd));
    lemma_values_node(inputs, c, p as int);
    lemma_values_node(inputs, nodes, j);
    let vc = values(inputs, c);
    let vn = values(inputs, nodes);
    lemma_values_len(inputs, c);
    lemma_values_len(inputs, nodes);
    if nd.in_a >= ni {
        let k = nd.in_a - ni;
        assert(reads_node(ni, node_reads(nodes), j, k as int));
        lemma_active_closed(ni, node_reads(nodes), out, j, k as int);
        lemma_rank_bound(mask, k as int);
        lemma_compact_node_value(inputs, ni, nodes, out, k as int);
    } else {
        lemma_values_inputs(inputs, c, nd.in_a as int);
        lemma_values_inputs(inputs, nodes, nd.in_a as int);
    }
    if nd.in_b >= ni {
        let k = nd.in_b - ni;
        assert(reads_node(ni, node_reads(nodes), j, k as int));
        lemma_active_closed(ni, node_reads(nodes), out, j, k as int);
        lemma_rank_bound(mask, k as int);
        lemma_compact_node_value(inputs, ni, nodes, out, k as int);
    } else {
        lemma_values_inputs(inputs, c, nd.in_b as int);
        lemma_values_inputs(inputs, nodes, nd.in_b as int);
    }
}

/// Compacting preserves the function: on every input vector, the compacted
/// network outputs what the uncompacted network outputs.
pub proof fn lemma_compact_preserves_output(inputs: Seq<u64>, ni: usize, nodes: Seq<Node>, out: usize)
    requires
        inputs.len() == ni,
        reads_backward(ni as int, nodes),
        out < ni + nodes.len(),
        ni + nodes.len() <= usize::MAX,
    ensures
        values(inputs, compacted_nodes(ni, nodes, active_mask(ni, node_reads(nodes), out)))[remap(
            ni,
            active_mask(ni, node_reads(nodes), out),
            out,
        )] == values(inputs, nodes)[out as int],
{
    let mask = active_mask(ni, node_reads(nodes), out);
    let c = compacted_nodes(ni, nodes, mask);
    if out >= ni {
        let j = out - ni;
        assert forall|s: Set<int>| #[trigger] closed_under_reads(ni, node_reads(nodes), out, s) implies s.contains(j as int) by {}
        assert(mask[j as int]);
        lemma_compact_node_value(inputs, ni, nodes, out, j as int);
    } else {
        lemma_values_inputs(inputs, c, out as int);
        lemma_values_inputs(inputs, nodes, out as int);
    }
}

/// Every node of a compacted network is active in it.
proof fn lemma_compacted_all_active(ni: usize, nodes: Seq<Node>, out: usize)
    requires
        reads_backward(ni as int, nodes),
        out < ni + nodes.len(),
        ni + nodes.len() <= usize::MAX,
    ensures
        ({
            let mask = active_mask(ni, node_reads(nodes), out);
            let c = compacted_nodes(ni, nodes, mask);
            all_set(active_mask(ni, node_reads(c), remap(ni, mask, out) as usize))
        }),
{
    let mask = active_mask(ni, node_reads(nodes), out);
    let c = compacted_nodes(ni, nodes, mask);
    let o = remap(ni, mask, out) as usize;
    let er = node_reads(nodes);
    let ec = node_reads(c);
    lemma_kept(nodes, mask);
    lemma_compact_wf(ni, nodes, out);
    lemma_count_bound(mask);
    let m2 = active_mask(ni, ec, o);
    assert forall|p: int| 0 <= p < m2.len() implies #[trigger] m2[p] by {
        assert forall|s: Set<int>| #[trigger] closed_under_reads(ni, ec, o, s) implies s.contains(p) by {
            let t = Set::new(|j: int| 0 <= j < nodes.len() && mask[j] && s.contains(rank(mask, j) as int));
            if out >= ni && out - ni < er.len() {
                let jo = out - ni;
                assert forall|s2: Set<int>| #[trigger] closed_under_reads(ni, er, out, s2) implies s2.contains(jo as int) by {}
                assert(mask[jo as int]);
                lemma_rank_bound(mask, jo as int);
                assert(o >= ni && o - ni == rank(mask, jo as int));
                assert(s.contains(rank(mask, jo as int) as int));
                assert(t.contains(jo as int));
            }
            assert forall|k: int, j: int|
                #![trigger t.contains(k), reads_node(ni, er, k, j)]
                0 <= k < er.len() && 0 <= j < er.len() && t.contains(k) && reads_node(ni, er, k, j) implies t.contains(j) by {
                lemma_active_closed(ni, er, out, k, j);
                assert(mask[j]);
                lemma_rank_bound(mask, k);
                lemma_rank_bound(mask, j);
                let rk = rank(mask, k) as int;
                let rj = rank(mask, j) as int;
                assert(c[rk] == remap_node(ni, mask, nodes[k]));
                assert(ec[rk] == (c[rk].in_a, c[rk].in_b));
                assert(reads_node(ni, ec, rk, rj));
                assert(s.contains(rk));
                assert(s.contains(rj));
            }
            assert(closed_under_reads(ni, er, out, t));
            assert(rank_taken(mask, p));
            let j = choose|j: int| 0 <= j < mask.len() && mask[j] && #[trigger] rank(mask, j) == p;
            assert(is_active(ni, er, out, j));
            assert(t.contains(j));
        }
    }
}

/// Compacting is idempotent: compacting a compacted network changes neither
/// its nodes nor its output.
pub proof fn lemma_compact_idempotent(ni: usize, nodes: Seq<Node>, out: usize)
    requires
        reads_backward(ni as int, nodes),
        out < ni + nodes.len(),
        ni + nodes.len() <= usize::MAX,
    ensures
        ({
            let mask = active_mask(ni, node_reads(nodes), out);
            let c = compacted_nodes(ni, nodes, mask);
            let o = remap(ni, mask, out) as usize;
            let m2 = active_mask(ni, node_reads(c), o);
            compacted_nodes(ni, c, m2) == c && remap(ni, m2, o) == o
        }),
{
    let mask = active_mask(ni, node_reads(nodes), out);
    let c = compacted_nodes(ni, nodes, mask);
    let o = remap(ni, mask, out) as usize;
    let m2 = active_mask(ni, node_reads(c), o);
    lemma_compacted_all_active(ni, nodes, out);
    lemma_compact_wf(ni, nodes, out);
    lemma_kept(nodes, mask);
    lemma_count_bound(mask);
    lemma_kept_all(c, m2);
    assert forall|p: int| 0 <= p < c.len() implies #[trigger] remap_node(ni, m2, c[p]) == c[p] by {
        if c[p].in_a >= ni {
            lemma_all_set_rank(m2, c[p].in_a - ni);
        }
        if c[p].in_b >= ni {
            lemma_all_set_rank(m2, c[p].in_b - ni);
        }
    }
    assert(kept(c, m2).map_values(|nd: Node| remap_node(ni, m2, nd)) =~= c);
    if o >= ni {
        lemma_all_set_rank(m2, o - ni);
    }
}

/// The number of active nodes is the number of nodes compacting keeps.
pub proof fn lemma_compact_size(ni: usize, nodes: Seq<Node>, out: usize)
    ensures
        compacted_nodes(ni, nodes, active_mask(ni, node_reads(nodes), out)).len() == count_true(active_mask(ni, node_reads(nodes), out)),
{
    lemma_kept(nodes, active_mask(ni, node_reads(nodes), out));
}

/// `nd` with every node reference moved up by `offset`.
pub open spec fn shift_node(num_inputs: usize, offset: int, nd: Node) -> Node {
    Node {
        op: nd.op,
        in_a: if nd.in_a >= num_inputs { (nd.in_a + offset) as usize } else { nd.in_a },
        in_b: if nd.in_b >= num_inputs { (nd.in_b + offset) as usize } else { nd.in_b },
    }
}

/// The nodes of `first` followed by those of `second`, the latter's node
/// references moved past `first`'s nodes.
pub open spec fn merged_nodes(num_inputs: usize, first: Seq<Node>, second: Seq<Node>) -> Seq<Node> {
    first + second.map_values(|nd: Node| shift_node(num_inputs, first.len() as int, nd))
}

/// No shifted reference of `second` overflows.
pub open spec fn shift_fits(num_inputs: usize, offset: int, second: Seq<Node>, out: usize) -> bool {
    &&& forall|q: int|
        0 <= q < second.len() ==> ((#[trigger] second[q]).in_a >= num_inputs ==> second[q].in_a + offset
            <= usize::MAX) && (second[q].in_b >= num_inputs ==> second[q].in_b + offset <= usize::MAX)
    &&& out >= num_inputs ==> out + offset <= usize::MAX
}

/// Appending a network after another: the appended nodes compute, on the same
/// inputs, the values they computed alone.
proof fn lemma_merged_value(inputs: Seq<u64>, ni: usize, first: Seq<Node>, second: Seq<Node>, q: int)
    requires
        inputs.len() == ni,
        reads_backward(ni as int, first),
        reads_backward(ni as int, second),
        shift_fits(ni, first.len() as int, second, 0),
        0 <= q < second.len(),
    ensures
        values(inputs, merged_nodes(ni, first, second))[ni + first.len() + q] == values(inputs, second)[ni + q],
    decreases q,
{
    let m = merged_nodes(ni, first, second);
    let off = first.len() as int;
    let nd = second[q];
    assert(m[off + q] == shift_node(ni, off, nd));
    assert(reads_backward(ni as int, m)) by {
        assert forall|k: int| 0 <= k < m.len() implies (#[trigger] m[k]).in_a < ni + k && m[k].in_b < ni + k by {
            if k < off {
                assert(m[k] == first[k]);
            } else {
                assert(m[k] == shift_node(ni, off, second[k - off]));
            }
        }
    }
    lemma_values_node(inputs, m, off + q);
    lemma_values_node(inputs, second, q);
    lemma_values_len(inputs, m);
    lemma_values_len(inputs, second);
    if nd.in_a >= ni {
        lemma_merged_value(inputs, ni, first, second, nd.in_a - ni);
    } else {
        lemma_values_inputs(inputs, m, nd.in_a as int);
        lemma_values_inputs(inputs, second, nd.in_a as int);
    }
    if nd.in_b >= ni {
        lemma_merged_value(inputs, ni, first, second, nd.in_b - ni);
    } else {
        lemma_values_inputs(inputs, m, nd.in_b as int);
        lemma_values_inputs(inputs, second, nd.in_b as int);
    }
}

/// Merging `first` with `second` (same number of inputs, both well formed)
/// gives a well-formed genome that outputs exactly what `second` outputs, on
/// every input vector.
pub proof fn lemma_merge_outputs_second(inputs: Seq<u64>, ni: usize, first: Seq<Node>, second: Seq<Node>, out: usize)
    requires
        inputs.len() == ni,
        reads_backward(ni as int, first),
        reads_backward(ni as int, second),
        out < ni + second.len(),
        shift_fits(ni, first.len() as int, second, out),
    ensures
        reads_backward(ni as int, merged_nodes(ni, first, second)),
        (if out >= ni { out + first.len() } else { out as int }) < ni + merged_nodes(ni, first, second).len(),
        values(inputs, merged_nodes(ni, first, second))[if out >= ni {
            out + first.len()
        } else {
            out as int
        }] == values(inputs, second)[out as int],
{
    let m = merged_nodes(ni, first, second);
    let off = first.len() as int;
    assert forall|k: int| 0 <= k < m.len() implies (#[trigger] m[k]).in_a < ni + k && m[k].in_b < ni + k by {
        if k < off {
            assert(m[k] == first[k]);
        } else {
            assert(m[k] == shift_node(ni, off, second[k - off]));
        }
    }
    if out >= ni {
        lemma_merged_value(inputs, ni, first, second, out - ni);
    } else {
        lemma_values_inputs(inputs, m, out as int);
        lemma_values_inputs(inputs, second, out as int);
    }
}

/// `after` is `before` with at most one of op, input A or input B changed,
/// and a changed input reads a value below `limit`.
pub open spec fn mutated_from(limit: int, before: Node, after: Node) -> bool {
    ||| after == before
    ||| after.in_a == before.in_a && after.in_b == before.in_b
    ||| after.op == before.op && after.in_b == before.in_b && after.in_a < limit
    ||| after.op == before.op && after.in_a == before.in_a && after.in_b < limit
}

/// `child` is `parent` after a mutation: same inputs and node count, each
/// node `k` keeps all but at most one field with a changed input below
/// `num_inputs + k`, and the output is kept or reads a value.
pub open spec fn genome_mutated_from(parent: Genome, child: Genome) -> bool {
    &&& child.num_inputs == parent.num_inputs
    &&& child.nodes@.len() == parent.nodes@.len()
    &&& forall|k: int|
        0 <= k < parent.nodes@.len() ==> #[trigger] mutated_from(
            parent.num_inputs + k,
            parent.nodes@[k],
            child.nodes@[k],
        )
    &&& (child.output_node_idx == parent.output_node_idx || child.output_node_idx < parent.num_inputs
        + parent.nodes@.len())
}

/// The two value indices each node reads.
pub open spec fn node_reads(nodes: Seq<Node>) -> Seq<(usize, usize)> {
    nodes.map_values(|n: Node| (n.in_a, n.in_b))
}

impl Genome {
    pub open spec fn active_spec(&self) -> Seq<bool> {
        active_mask(self.num_inputs, node_reads(self.nodes@), self.output_node_idx)
    }

    /// Every node reads only inputs or earlier nodes, and the output names a
    /// value.
    pub open spec fn wf(&self) -> bool {
        &&& reads_backward(self.num_inputs as int, self.nodes@)
        &&& self.output_node_idx < self.num_inputs + self.nodes@.len()
    }

    /// Evaluates the network on `inputs`, leaving every value in `buffer`,
    /// and returns the output value. Every node and the output must read a
    /// value computed before it.
    pub fn eval(&self, inputs: &[u64], buffer: &mut Vec<u64>) -> (r: u64)
        requires
            reads_backward(inputs@.len() as int, self.nodes@),
            self.output_node_idx < inputs@.len() + self.nodes@.len(),
        ensures
            final(buffer)@ == values(inputs@, self.nodes@),
            r == values(inputs@, self.nodes@)[self.output_node_idx as int],
    {
        buffer.clear();
        buffer.extend_from_slice(inputs);
        assert(buffer@ == inputs@);
        let n = self.nodes.len();
        let mut k: usize = 0;
        while k < n
            invariant
                n == self.nodes@.len(),
                k <= n,
                reads_backward(inputs@.len() as int, self.nodes@),
                buffer@ == values(inputs@, self.nodes@.subrange(0, k as int)),
            decreases n - k,
        {
            let node = self.nodes[k];
            proof {
                lemma_values_len(inputs@, self.nodes@.subrange(0, k as int));
                assert(self.nodes@[k as int] == node);
            }
            let val_a = buffer[node.in_a];
            let val_b = buffer[node.in_b];
            let res = node.op.eval(val_a, val_b);
            buffer.push(res);
            proof {
                let next = self.nodes@.subrange(0, k + 1);
                assert(next.drop_last() == self.nodes@.subrange(0, k as int));
                assert(next.last() == node);
            }
            k = k + 1;
        }
        assert(self.nodes@.subrange(0, n as int) == self.nodes@);
        proof {
            lemma_values_len(inputs@, self.nodes@);
        }
        buffer[self.output_node_idx]
    }

    /// Marks the nodes the output depends on.
    fn mark(&self) -> (mask: Vec<bool>)
        ensures
            mask@ == self.active_spec(),
    {
        let mut edges: Vec<(usize, usize)> = Vec::with_capacity(self.nodes.len());
        let mut k: usize = 0;
        while k < self.nodes.len()
            invariant
                k <= self.nodes@.len(),
                edges@ == node_reads(self.nodes@.subrange(0, k as int)),
            decreases self.nodes@.len() - k,
        {
            let nd = self.nodes[k];
            edges.push((nd.in_a, nd.in_b));
            proof {
                assert(node_reads(self.nodes@.subrange(0, k + 1)) == node_reads(
                    self.nodes@.subrange(0, k as int),
                ).push((nd.in_a, nd.in_b)));
            }
            k = k + 1;
        }
        assert(self.nodes@.subrange(0, self.nodes@.len() as int) == self.nodes@);
        mark_active(self.num_inputs, &edges, self.output_node_idx)
    }

    /// Every active node, and the output when it is a node, names a value in
    /// range.
    pub open spec fn active_reads_in_range(&self) -> bool {
        &&& self.output_node_idx >= self.num_inputs ==> self.output_node_idx - self.num_inputs
            < self.nodes@.len()
        &&& forall|j: int|
            0 <= j < self.nodes@.len() && #[trigger] self.active_spec()[j] ==> (self.nodes@[j].in_a
                >= self.num_inputs ==> self.nodes@[j].in_a - self.num_inputs < self.nodes@.len()) && (
            self.nodes@[j].in_b >= self.num_inputs ==> self.nodes@[j].in_b - self.num_inputs
                < self.nodes@.len())
    }

    /// The genome restricted to its active nodes: same inputs, the active
    /// nodes in their order with inputs and output remapped.
    pub fn compact(&self) -> (r: Genome)
        requires
            self.active_reads_in_range(),
            self.num_inputs + self.nodes@.len() <= usize::MAX,
        ensures
            r.num_inputs == self.num_inputs,
            r.nodes@ == compacted_nodes(self.num_inputs, self.nodes@, self.active_spec()),
            r.output_node_idx == remap(self.num_inputs, self.active_spec(), self.output_node_idx),
    {
        let active = self.mark();
        let ni = self.num_inputs;
        let n = self.nodes.len();
        let ghost mask = active@;
        let ghost nodes = self.nodes@;
        proof {
            lemma_kept(nodes, mask);
        }
        let mut new_nodes: Vec<Node> = Vec::new();
        let mut index_map: Vec<usize> = vec![0usize; n];
        let mut i: usize = 0;
        while i < n
            invariant
                n == nodes.len(),
                mask.len() == n,
                active@ == mask,
                nodes == self.nodes@,
                i <= n,
                index_map@.len() == n,
                new_nodes@ == kept(nodes.subrange(0, i as int), mask.subrange(0, i as int)),
                new_nodes@.len() == rank(mask, i as int),
                rank(mask, i as int) <= i,
                forall|j: int| 0 <= j < i && mask[j] ==> #[trigger] index_map@[j] == rank(mask, j),
            decreases n - i,
        {
            proof {
                let ni1 = nodes.subrange(0, i + 1);
                let mi1 = mask.subrange(0, i + 1);
                assert(ni1.drop_last() == nodes.subrange(0, i as int));
                assert(mi1.drop_last() == mask.subrange(0, i as int));
                assert(ni1.last() == nodes[i as int]);
                assert(mi1.last() == mask[i as int]);
            }
            if active[i] {
                index_map.set(i, new_nodes.len());
                new_nodes.push(self.nodes[i]);
            }
            i = i + 1;
        }
        assert(nodes.subrange(0, n as int) == nodes);
        assert(mask.subrange(0, n as int) == mask);
        let ghost kept_nodes = new_nodes@;
        let m = new_nodes.len();
        let mut p: usize = 0;
        while p < m
            invariant
                m == kept_nodes.len(),
                kept_nodes == kept(nodes, mask),
                kept_nodes.len() == count_true(mask),
                mask == self.active_spec(),
                nodes == self.nodes@,
                n == nodes.len(),
                ni == self.num_inputs,
                ni + n <= usize::MAX,
                self.active_reads_in_range(),
                index_map@.len() == n,
                forall|j: int| 0 <= j < n && mask[j] ==> #[trigger] index_map@[j] == rank(mask, j),
                forall|j: int|
                    0 <= j < n && mask[j] ==> #[trigger] rank(mask, j) < kept_nodes.len() && kept_nodes[rank(
                        mask,
                        j,
                    ) as int] == nodes[j],
                forall|q: int| 0 <= q < kept_nodes.len() ==> #[trigger] rank_taken(mask, q),
                p <= m,
                new_nodes@.len() == m,
                forall|q: int| 0 <= q < p ==> #[trigger] new_nodes@[q] == remap_node(ni, mask, kept_nodes[q]),
                forall|q: int| p <= q < m ==> #[trigger] new_nodes@[q] == kept_nodes[q],
            decreases m - p,
        {
            assert(rank_taken(mask, p as int));
            let ghost j = choose|j: int| 0 <= j < mask.len() && mask[j] && #[trigger] rank(mask, j) == p;
            assert(kept_nodes[p as int] == nodes[j]);
            let mut node = new_nodes[p];
            proof {
                lemma_count_bound(mask);
                assert(mask[j] == is_active(ni, node_reads(nodes), self.output_node_idx, j));
            }
            if node.in_a >= ni {
                let old_idx = node.in_a - ni;
                proof {
                    assert(reads_node(ni, node_reads(nodes), j, old_idx as int));
                    lemma_active_closed(ni, node_reads(nodes), self.output_node_idx, j, old_idx as int);
                    assert(mask[old_idx as int]);
                    lemma_rank_bound(mask, old_idx as int);
                }
                node.in_a = ni + index_map[old_idx];
            }
            if node.in_b >= ni {
                let old_idx = node.in_b - ni;
                proof {
                    assert(reads_node(ni, node_reads(nodes), j, old_idx as int));
                    lemma_active_closed(ni, node_reads(nodes), self.output_node_idx, j, old_idx as int);
                    assert(mask[old_idx as int]);
                    lemma_rank_bound(mask, old_idx as int);
                }
                node.in_b = ni + index_map[old_idx];
            }
            new_nodes.set(p, node);
            p = p + 1;
        }
        assert(new_nodes@ == compacted_nodes(ni, nodes, mask));
        let new_output_idx = if self.output_node_idx >= ni {
            let old_idx = self.output_node_idx - ni;
            proof {
                assert forall|s: Set<int>|
                    #[trigger] closed_under_reads(ni, node_reads(nodes), self.output_node_idx, s) implies s.contains(
                    old_idx as int,
                ) by {}
                assert(mask[old_idx as int]);
                lemma_rank_bound(mask, old_idx as int);
                lemma_count_bound(mask);
            }
            ni + index_map[old_idx]
        } else {
            self.output_node_idx
        };
        Genome { num_inputs: ni, nodes: new_nodes, output_node_idx: new_output_idx }
    }

    /// This genome's nodes followed by `other`'s, with `other`'s node
    /// references moved past this genome's nodes; the output is `other`'s.
    pub fn merge(&self, other: &Genome) -> (r: Genome)
        requires
            shift_fits(self.num_inputs, self.nodes@.len() as int, other.nodes@, other.output_node_idx),
        ensures
            r.num_inputs == self.num_inputs,
            r.nodes@ == merged_nodes(self.num_inputs, self.nodes@, other.nodes@),
            r.output_node_idx == if other.output_node_idx >= self.num_inputs {
                other.output_node_idx + self.nodes@.len()
            } else {
                other.output_node_idx as int
            },
    {
        let mut new_nodes = self.nodes.clone();
        let offset = self.nodes.len();
        let ni = self.num_inputs;
        let m = other.nodes.len();
        let mut q: usize = 0;
        while q < m
            invariant
                m == other.nodes@.len(),
                offset == self.nodes@.len(),
                ni == self.num_inputs,
                q <= m,
                shift_fits(ni, offset as int, other.nodes@, other.output_node_idx),
                new_nodes@ == self.nodes@ + other.nodes@.subrange(0, q as int).map_values(
                    |nd: Node| shift_node(ni, offset as int, nd),
                ),
            decreases m - q,
        {
            let mut new_node = other.nodes[q];
            assert(other.nodes@[q as int] == new_node);
            if new_node.in_a >= ni {
                new_node.in_a = new_node.in_a + offset;
            }
            if new_node.in_b >= ni {
                new_node.in_b = new_node.in_b + offset;
            }
            new_nodes.push(new_node);
            proof {
                let f = |nd: Node| shift_node(ni, offset as int, nd);
                assert(other.nodes@.subrange(0, q + 1).map_values(f) == other.nodes@.subrange(
                    0,
                    q as int,
                ).map_values(f).push(f(other.nodes@[q as int])));
            }
            q = q + 1;
        }
        assert(other.nodes@.subrange(0, m as int) == other.nodes@);
        let new_output_idx = if other.output_node_idx >= ni {
            other.output_node_idx + offset
        } else {
            other.output_node_idx
        };
        Genome { num_inputs: ni, nodes: new_nodes, output_node_idx: new_output_idx }
    }

    /// A random well-formed genome: node `i` reads two values drawn below
    /// `num_inputs + i`, and the output is drawn below
    /// `num_inputs + num_nodes`.
    pub fn new_random(num_inputs: usize, num_nodes: usize, rng: &mut ChaCha8Rng) -> (g: Genome)
        requires
            num_inputs > 0,
            num_inputs + num_nodes <= usize::MAX,
        ensures
            g.num_inputs == num_inputs,
            g.nodes@.len() == num_nodes,
            g.wf(),
    {
        let mut nodes: Vec<Node> = Vec::with_capacity(num_nodes);
        let mut i: usize = 0;
        while i < num_nodes
            invariant
                i <= num_nodes,
                num_inputs > 0,
                num_inputs + num_nodes <= usize::MAX,
                nodes@.len() == i,
                reads_backward(num_inputs as int, nodes@),
            decreases num_nodes - i,
        {
            let limit = num_inputs + i;
            let op = Operation::random(rng);
            let in_a = random_usize_below(rng, limit);
            let in_b = random_usize_below(rng, limit);
            nodes.push(Node { op, in_a, in_b });
            i = i + 1;
        }
        let output_node_idx = random_usize_below(rng, num_inputs + num_nodes);
        Genome { num_inputs, nodes, output_node_idx }
    }

    /// Mutates the output (drawn anew) and each node (one of op, input A or
    /// input B drawn anew), each with probability
    /// `rate_numerator / rate_denominator`. Redrawn inputs keep the network
    /// reading backward. At full rate the output is always redrawn.
    pub fn mutate(&mut self, rate_numerator: u32, rate_denominator: u32, rng: &mut ChaCha8Rng)
        requires
            rate_denominator > 0,
            rate_numerator <= rate_denominator,
            rate_numerator == 0 || old(self).num_inputs > 0,
            old(self).num_inputs + old(self).nodes@.len() <= usize::MAX,
        ensures
            final(self).num_inputs == old(self).num_inputs,
            final(self).nodes@.len() == old(self).nodes@.len(),
            forall|i: int|
                0 <= i < old(self).nodes@.len() ==> #[trigger] mutated_from(
                    old(self).num_inputs as int + i,
                    old(self).nodes@[i],
                    final(self).nodes@[i],
                ),
            final(self).output_node_idx == old(self).output_node_idx || final(self).output_node_idx
                < old(self).num_inputs + old(self).nodes@.len(),
            rate_numerator == rate_denominator ==> final(self).output_node_idx < old(self).num_inputs + old(
                self,
            ).nodes@.len(),
            rate_numerator == 0 ==> final(self).nodes@ == old(self).nodes@ && final(self).output_node_idx
                == old(self).output_node_idx,
            old(self).wf() ==> final(self).wf(),
    {
        if random_ratio(rng, rate_numerator, rate_denominator) {
            let limit = self.num_inputs + self.nodes.len();
            self.output_node_idx = random_usize_below(rng, limit);
        }
        let n = self.nodes.len();
        let ni = self.num_inputs;
        let ghost start = self.nodes@;
        let mut i: usize = 0;
        while i < n
            invariant
                n == start.len(),
                ni == self.num_inputs,
                ni == old(self).num_inputs,
                start == old(self).nodes@,
                self.output_node_idx == old(self).output_node_idx || self.output_node_idx < ni + n,
                rate_numerator == 0 ==> self.output_node_idx == old(self).output_node_idx,
                rate_numerator == rate_denominator ==> self.output_node_idx < ni + n,
                rate_denominator > 0,
                rate_numerator <= rate_denominator,
                rate_numerator == 0 || ni > 0,
                ni + n <= usize::MAX,
                i <= n,
                self.nodes@.len() == n,
                forall|k: int| 0 <= k < i ==> #[trigger] mutated_from(ni as int + k, start[k], self.nodes@[k]),
                forall|k: int| 0 <= k < i && rate_numerator == 0 ==> #[trigger] self.nodes@[k] == start[k],
                forall|k: int| i <= k < n ==> #[trigger] self.nodes@[k] == start[k],
            decreases n - i,
        {
            if random_ratio(rng, rate_numerator, rate_denominator) {
                let mut node = self.nodes[i];
                let choice = random_i32_below(rng, 3);
                match choice {
                    0 => {
                        node.op = Operation::random(rng);
                    },
                    1 => {
                        let limit = ni + i;
                        node.in_a = random_usize_below(rng, limit);
                    },
                    2 => {
                        let limit = ni + i;
                        node.in_b = random_usize_below(rng, limit);
                    },
                    _ => {},
                }
                self.nodes.set(i, node);
            }
            i = i + 1;
        }
        proof {
            if rate_numerator == 0 {
                assert(self.nodes@ == old(self).nodes@);
            }
            if old(self).wf() {
                assert forall|k: int| 0 <= k < self.nodes@.len() implies (#[trigger] self.nodes@[k]).in_a
                    < ni + k && self.nodes@[k].in_b < ni + k by {
                    assert(mutated_from(ni as int + k, start[k], self.nodes@[k]));
                    assert(start[k].in_a < ni + k && start[k].in_b < ni + k);
                }
            }
        }
    }

    /// Number of nodes the output depends on.
    pub fn active_node_count(&self) -> (r: usize)
        ensures
            r == count_true(self.active_spec()),
    {
        let active = self.mark();
        count_marked(&active)
    }
}

} // verus!
