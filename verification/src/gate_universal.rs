//! Feed-forward networks of universal gates: each node holds a 4-bit truth
//! table and two 16-bit value indices, so a genome can be written out as a
//! bit string (the material of the self-describing "quine" experiments).
use vstd::prelude::*;
use rand_chacha::ChaCha8Rng;
use crate::random::{random_usize_below, random_i32_below, random_ratio};
use crate::dag::{
    count_true, lemma_count_bound, reads_node, closed_under_reads, is_active, active_mask, rank, kept,
    rank_taken, lemma_rank_bound, lemma_kept, lemma_active_closed, mark_active, lemma_rank_monotone, all_set,
    lemma_all_set_rank, lemma_kept_all,
};

verus! {

/// A node applying truth table `table` (low 4 bits used) to the values at
/// `in_a` and `in_b`.
#[derive(Debug, Clone, Copy)]
pub struct UniversalNode {
    pub table: u8,
    pub in_a: u16,
    pub in_b: u16,
}

/// `after` is `before` with at most one of table, input A or input B
/// changed; a changed table is below 16 and a changed input reads a value
/// below `limit`.
pub open spec fn universal_mutated_from(limit: int, before: UniversalNode, after: UniversalNode) -> bool {
    ||| after == before
    ||| after.in_a == before.in_a && after.in_b == before.in_b && after.table < 16
    ||| after.table == before.table && after.in_b == before.in_b && after.in_a < limit
    ||| after.table == before.table && after.in_a == before.in_a && after.in_b < limit
}

/// `child` is `parent` after a mutation: same inputs and node count, each
/// node `k` keeps all but at most one field (a changed table below 16, a
/// changed input below `num_inputs + k`), and the output is kept or reads a
/// value.
pub open spec fn universal_genome_mutated_from(parent: Genome, child: Genome) -> bool {
    &&& child.num_inputs == parent.num_inputs
    &&& child.nodes@.len() == parent.nodes@.len()
    &&& forall|k: int|
        0 <= k < parent.nodes@.len() ==> #[trigger] universal_mutated_from(
            parent.num_inputs + k,
            parent.nodes@[k],
            child.nodes@[k],
        )
    &&& (child.output_node == parent.output_node || child.output_node < parent.num_inputs + parent.nodes@.len())
}

#[derive(Debug, Clone)]
pub struct Genome {
    pub num_inputs: usize,
    pub nodes: Vec<UniversalNode>,
    pub output_node: usize,
}

/// Output of truth table `table` on inputs `a`, `b`: its bit at index
/// `2a + b`.
pub open spec fn table_bit(table: u8, a: bool, b: bool) -> bool {
    let idx: u8 = ((if a { 1u8 } else { 0u8 }) << 1u8) | (if b { 1u8 } else { 0u8 });
    (table >> idx) & 1u8 == 1u8
}

/// The truth-table lookup takes input A as the high bit of the index: with
/// `(a, b)` = (0, 0), (0, 1), (1, 0), (1, 1) a node outputs bit 0, 1, 2, 3 of
/// its table. (Also: two bits packed as `2a + b` stay below 8.)
pub proof fn lemma_table_bit_order()
    by (bit_vector)
    ensures
        forall|ia: u8, ib: u8| ia <= 1 && ib <= 1 ==> #[trigger] ((ia << 1u8) | ib) < 8,
        forall|t: u8| #[trigger] table_bit(t, false, false) == (t % 2 == 1),
        forall|t: u8| #[trigger] table_bit(t, false, true) == ((t / 2) % 2 == 1),
        forall|t: u8| #[trigger] table_bit(t, true, false) == ((t / 4) % 2 == 1),
        forall|t: u8| #[trigger] table_bit(t, true, true) == ((t / 8) % 2 == 1),
{
}

/// The named tables compute what their bits say, in input order: 0b1000 is
/// A AND B, 0b1110 is A OR B, 0b0110 is A XOR B, 0b0010 is (NOT A) AND B,
/// 0b0100 is A AND (NOT B), 0b1100 copies A and 0b1010 copies B.
pub proof fn lemma_named_tables(a: bool, b: bool)
    ensures
        table_bit(0b1000, a, b) == (a && b),
        table_bit(0b1110, a, b) == (a || b),
        table_bit(0b0110, a, b) == (a != b),
        table_bit(0b0010, a, b) == (!a && b),
        table_bit(0b0100, a, b) == (a && !b),
        table_bit(0b1100, a, b) == a,
        table_bit(0b1010, a, b) == b,
{
    lemma_table_bit_order();
    if a {
        if b {
            assert(table_bit(0b1000, true, true) == ((0b1000u8 / 8) % 2 == 1));
            assert(table_bit(0b1110, true, true) == ((0b1110u8 / 8) % 2 == 1));
            assert(table_bit(0b0110, true, true) == ((0b0110u8 / 8) % 2 == 1));
            assert(table_bit(0b0010, true, true) == ((0b0010u8 / 8) % 2 == 1));
            assert(table_bit(0b0100, true, true) == ((0b0100u8 / 8) % 2 == 1));
            assert(table_bit(0b1100, true, true) == ((0b1100u8 / 8) % 2 == 1));
            assert(table_bit(0b1010, true, true) == ((0b1010u8 / 8) % 2 == 1));
        } else {
            assert(table_bit(0b1000, true, false) == ((0b1000u8 / 4) % 2 == 1));
            assert(table_bit(0b1110, true, false) == ((0b1110u8 / 4) % 2 == 1));
            assert(table_bit(0b0110, true, false) == ((0b0110u8 / 4) % 2 == 1));
            assert(table_bit(0b0010, true, false) == ((0b0010u8 / 4) % 2 == 1));
            assert(table_bit(0b0100, true, false) == ((0b0100u8 / 4) % 2 == 1));
            assert(table_bit(0b1100, true, false) == ((0b1100u8 / 4) % 2 == 1));
            assert(table_bit(0b1010, true, false) == ((0b1010u8 / 4) % 2 == 1));
        }
    } else {
        if b {
            assert(table_bit(0b1000, false, true) == ((0b1000u8 / 2) % 2 == 1));
            assert(table_bit(0b1110, false, true) == ((0b1110u8 / 2) % 2 == 1));
            assert(table_bit(0b0110, false, true) == ((0b0110u8 / 2) % 2 == 1));
            assert(table_bit(0b0010, false, true) == ((0b0010u8 / 2) % 2 == 1));
            assert(table_bit(0b0100, false, true) == ((0b0100u8 / 2) % 2 == 1));
            assert(table_bit(0b1100, false, true) == ((0b1100u8 / 2) % 2 == 1));
            assert(table_bit(0b1010, false, true) == ((0b1010u8 / 2) % 2 == 1));
        } else {
            assert(table_bit(0b1000, false, false) == (0b1000u8 % 2 == 1));
            assert(table_bit(0b1110, false, false) == (0b1110u8 % 2 == 1));
            assert(table_bit(0b0110, false, false) == (0b0110u8 % 2 == 1));
            assert(table_bit(0b0010, false, false) == (0b0010u8 % 2 == 1));
            assert(table_bit(0b0100, false, false) == (0b0100u8 % 2 == 1));
            assert(table_bit(0b1100, false, false) == (0b1100u8 % 2 == 1));
            assert(table_bit(0b1010, false, false) == (0b1010u8 % 2 == 1));
        }
    }
}

/// Value `i`, or `false` when there is none.
pub open spec fn value_or_false(v: Seq<bool>, i: int) -> bool {
    if 0 <= i < v.len() { v[i] } else { false }
}

/// The inputs followed by one value per node; a read outside the values so
/// far gives `false`.
pub open spec fn values(inputs: Seq<bool>, nodes: Seq<UniversalNode>) -> Seq<bool>
    decreases nodes.len(),
{
    if nodes.len() == 0 {
        inputs
    } else {
        let v = values(inputs, nodes.drop_last());
        let n = nodes.last();
        v.push(table_bit(n.table, value_or_false(v, n.in_a as int), value_or_false(v, n.in_b as int)))
    }
}

/// The two value indices each node reads.
pub open spec fn node_reads(nodes: Seq<UniversalNode>) -> Seq<(usize, usize)> {
    nodes.map_values(|n: UniversalNode| (n.in_a as usize, n.in_b as usize))
}

/// Index `i` of the value space after dropping the inactive nodes.
pub open spec fn remap_index(num_inputs: usize, mask: Seq<bool>, i: u16) -> u16 {
    if i as usize >= num_inputs {
        (num_inputs + rank(mask, i - num_inputs)) as u16
    } else {
        i
    }
}

pub open spec fn remap_node(num_inputs: usize, mask: Seq<bool>, nd: UniversalNode) -> UniversalNode {
    UniversalNode {
        table: nd.table,
        in_a: remap_index(num_inputs, mask, nd.in_a),
        in_b: remap_index(num_inputs, mask, nd.in_b),
    }
}

/// A read of an active node is renumbered without leaving 16 bits.
pub open spec fn read_remaps(num_inputs: usize, n: int, mask: Seq<bool>, i: u16) -> bool {
    i as usize >= num_inputs ==> i - num_inputs < n && num_inputs + rank(mask, i - num_inputs) <= 0xFFFF
}

/// Bit `i` of `x`.
pub open spec fn bit16(x: u16, i: int) -> bool {
    (x >> (i as u16)) & 1u16 == 1u16
}

pub open spec fn bit8(x: u8, i: int) -> bool {
    (x >> (i as u8)) & 1u8 == 1u8
}

/// The 28 bits describing a node: 4 bits of table, 12 bits of input A, 12
/// bits of input B, least significant first.
pub open spec fn node_bits(nd: UniversalNode) -> Seq<bool> {
    Seq::new(
        28,
        |t: int|
            if t < 4 {
                bit8(nd.table, t)
            } else if t < 16 {
                bit16(nd.in_a, t - 4)
            } else {
                bit16(nd.in_b, t - 16)
            },
    )
}

/// The bits of all nodes, in order.
pub open spec fn nodes_bits(nodes: Seq<UniversalNode>) -> Seq<bool>
    decreases nodes.len(),
{
    if nodes.len() == 0 {
        Seq::empty()
    } else {
        nodes_bits(nodes.drop_last()) + node_bits(nodes.last())
    }
}

/// The 12 bits of a pointer, least significant first.
pub open spec fn pointer_bits(p: u16) -> Seq<bool> {
    Seq::new(12, |t: int| bit16(p, t))
}

impl Genome {
    pub open spec fn active_spec(&self) -> Seq<bool> {
        active_mask(self.num_inputs, node_reads(self.nodes@), self.output_node)
    }

    /// Every node reads only inputs or earlier nodes, and the output names a
    /// value.
    pub open spec fn wf(&self) -> bool {
        &&& forall|k: int|
            0 <= k < self.nodes@.len() ==> (#[trigger] self.nodes@[k]).in_a < self.num_inputs + k
                && self.nodes@[k].in_b < self.num_inputs + k
        &&& self.output_node < self.num_inputs + self.nodes@.len()
    }

    /// The value of the output on `inputs`.
    pub open spec fn eval_spec(&self, inputs: Seq<bool>) -> bool {
        value_or_false(values(inputs, self.nodes@), self.output_node as int)
    }

    /// The serialized genome: the bits of every node, then 12 bits of the
    /// output pointer (truncated to 16 bits).
    pub open spec fn bits_spec(&self) -> Seq<bool> {
        nodes_bits(self.nodes@) + pointer_bits(self.output_node as u16)
    }

    /// Reads of active nodes and of the output stay in range and renumber
    /// within 16 bits.
    pub open spec fn active_reads_ok(&self) -> bool {
        &&& self.output_node >= self.num_inputs ==> self.output_node - self.num_inputs < self.nodes@.len()
        &&& forall|j: int|
            0 <= j < self.nodes@.len() && #[trigger] self.active_spec()[j] ==> read_remaps(
                self.num_inputs,
                self.nodes@.len() as int,
                self.active_spec(),
                self.nodes@[j].in_a,
            ) && read_remaps(self.num_inputs, self.nodes@.len() as int, self.active_spec(), self.nodes@[j].in_b)
    }

    /// A random genome: node `i` gets a random table and reads two values
    /// drawn below `num_inputs + i`; the output is drawn below
    /// `num_inputs + num_nodes`. Indices are stored in 16 bits.
    pub fn new_random(num_inputs: usize, num_nodes: usize, rng: &mut ChaCha8Rng) -> (g: Genome)
        requires
            num_inputs > 0,
            num_inputs + num_nodes <= usize::MAX,
        ensures
            g.num_inputs == num_inputs,
            g.nodes@.len() == num_nodes,
            g.output_node < num_inputs + num_nodes,
            forall|k: int| 0 <= k < num_nodes ==> (#[trigger] g.nodes@[k]).table < 16,
            num_inputs + num_nodes <= 0x1_0000 ==> g.wf(),
    {
        let mut nodes: Vec<UniversalNode> = Vec::with_capacity(num_nodes);
        let mut i: usize = 0;
        while i < num_nodes
            invariant
                i <= num_nodes,
                num_inputs > 0,
                num_inputs + num_nodes <= usize::MAX,
                nodes@.len() == i,
                forall|k: int| 0 <= k < i ==> (#[trigger] nodes@[k]).table < 16,
                num_inputs + num_nodes <= 0x1_0000 ==> forall|k: int|
                    0 <= k < i ==> (#[trigger] nodes@[k]).in_a < num_inputs + k && nodes@[k].in_b < num_inputs
                        + k,
            decreases num_nodes - i,
        {
            let limit = num_inputs + i;
            let table = random_i32_below(rng, 16) as u8;
            let in_a = random_usize_below(rng, limit) as u16;
            let in_b = random_usize_below(rng, limit) as u16;
            nodes.push(UniversalNode { table, in_a, in_b });
            i = i + 1;
        }
        let output_node = random_usize_below(rng, num_inputs + num_nodes);
        Genome { num_inputs, nodes, output_node }
    }

    /// Mutates each node (table, input A or input B drawn anew) and then the
    /// output, each with probability `rate_numerator / rate_denominator`.
    /// Node `i` keeps all but at most one field, a redrawn table is below 16
    /// and a redrawn input reads below `num_inputs + i`; a redrawn output reads
    /// below `num_inputs + nodes.len()`, and at full rate the output is always
    /// redrawn.
    pub fn mutate(&mut self, rate_numerator: u32, rate_denominator: u32, rng: &mut ChaCha8Rng)
        requires
            rate_denominator > 0,
            rate_numerator <= rate_denominator,
            rate_numerator == 0 || old(self).num_inputs > 0,
            old(self).num_inputs + old(self).nodes@.len() <= usize::MAX,
        ensures
            final(self).num_inputs == old(self).num_inputs,
            final(self).nodes@.len() == old(self).nodes@.len(),
            final(self).output_node == old(self).output_node || final(self).output_node < old(
                self,
            ).num_inputs + old(self).nodes@.len(),
            rate_numerator == rate_denominator ==> final(self).output_node < old(self).num_inputs + old(
                self,
            ).nodes@.len(),
            forall|i: int|
                0 <= i < old(self).nodes@.len() ==> #[trigger] universal_mutated_from(
                    old(self).num_inputs + i,
                    old(self).nodes@[i],
                    final(self).nodes@[i],
                ),
            rate_numerator == 0 ==> final(self).nodes@ == old(self).nodes@ && final(self).output_node == old(
                self,
            ).output_node,
            old(self).wf() && old(self).num_inputs + old(self).nodes@.len() <= 0x1_0000 ==> final(self).wf(),
    {
        let n = self.nodes.len();
        let ni = self.num_inputs;
        let ghost start = self.nodes@;
        let mut i: usize = 0;
        while i < n
            invariant
                n == start.len(),
                ni == self.num_inputs,
                ni == old(self).num_inputs,
                start == old(self).nodes@,
                self.output_node == old(self).output_node,
                rate_denominator > 0,
                rate_numerator <= rate_denominator,
                rate_numerator == 0 || ni > 0,
                ni + n <= usize::MAX,
                i <= n,
                self.nodes@.len() == n,
                rate_numerator == 0 ==> self.nodes@ == start,
                forall|k: int| i <= k < n ==> #[trigger] self.nodes@[k] == start[k],
                forall|k: int|
                    0 <= k < i ==> #[trigger] universal_mutated_from(ni + k, start[k], self.nodes@[k]),
                old(self).wf() && ni + n <= 0x1_0000 ==> forall|k: int|
                    0 <= k < n ==> (#[trigger] self.nodes@[k]).in_a < ni + k && self.nodes@[k].in_b < ni + k,
            decreases n - i,
        {
            if random_ratio(rng, rate_numerator, rate_denominator) {
                let mut node = self.nodes[i];
                let choice = random_i32_below(rng, 3);
                match choice {
                    0 => {
                        node.table = random_i32_below(rng, 16) as u8;
                    },
                    1 => {
                        let limit = ni + i;
                        node.in_a = random_usize_below(rng, limit) as u16;
                    },
                    2 => {
                        let limit = ni + i;
                        node.in_b = random_usize_below(rng, limit) as u16;
                    },
                    _ => {},
                }
                self.nodes.set(i, node);
            }
            i = i + 1;
        }
        if random_ratio(rng, rate_numerator, rate_denominator) {
            let limit = self.num_inputs + self.nodes.len();
            self.output_node = random_usize_below(rng, limit);
        }
    }

    /// Evaluates the network; reads outside the values computed so far give
    /// `false`, and so does an output outside the values.
    pub fn eval(&self, inputs: &[bool]) -> (r: bool)
        ensures
            r == self.eval_spec(inputs@),
    {
        let mut values_so_far: Vec<bool> = Vec::new();
        values_so_far.extend_from_slice(inputs);
        assert(values_so_far@ == inputs@);
        let n = self.nodes.len();
        let mut k: usize = 0;
        while k < n
            invariant
                n == self.nodes@.len(),
                k <= n,
                values_so_far@ == values(inputs@, self.nodes@.subrange(0, k as int)),
            decreases n - k,
        {
            let node = self.nodes[k];
            let a = get_or_false(&values_so_far, node.in_a as usize);
            let b = get_or_false(&values_so_far, node.in_b as usize);
            let ia: u8 = if a { 1 } else { 0 };
            let ib: u8 = if b { 1 } else { 0 };
            let idx = (ia << 1) | ib;
            proof {
                lemma_table_bit_order();
                assert(idx < 8);
            }
            let res = (node.table >> idx) & 1;
            values_so_far.push(res == 1);
            proof {
                let next = self.nodes@.subrange(0, k + 1);
                assert(next.drop_last() == self.nodes@.subrange(0, k as int));
                assert(next.last() == node);
            }
            k = k + 1;
        }
        assert(self.nodes@.subrange(0, n as int) == self.nodes@);
        get_or_false(&values_so_far, self.output_node)
    }

    /// The genome restricted to the nodes the output depends on, with inputs
    /// and output renumbered. On a well-formed genome whose values fit in 16
    /// bits the result is well formed, computes the same output
    /// (`lemma_active_preserves_output`) and is its own active genome
    /// (`lemma_active_idempotent`).
    pub fn get_active_genome(&self) -> (r: Genome)
        requires
            self.active_reads_ok(),
            self.num_inputs + self.nodes@.len() <= usize::MAX,
        ensures
            r.num_inputs == self.num_inputs,
            r.nodes@ == active_nodes(self.num_inputs, self.nodes@, self.output_node),
            r.output_node == active_output(self.num_inputs, self.nodes@, self.output_node),
            r.nodes@.len() == count_true(self.active_spec()),
    {
        let ni = self.num_inputs;
        let n = self.nodes.len();
        let mut edges: Vec<(usize, usize)> = Vec::with_capacity(n);
        let mut e: usize = 0;
        while e < n
            invariant
                n == self.nodes@.len(),
                e <= n,
                edges@ == node_reads(self.nodes@.subrange(0, e as int)),
            decreases n - e,
        {
            let nd = self.nodes[e];
            edges.push((nd.in_a as usize, nd.in_b as usize));
            proof {
                assert(node_reads(self.nodes@.subrange(0, e + 1)) == node_reads(
                    self.nodes@.subrange(0, e as int),
                ).push((nd.in_a as usize, nd.in_b as usize)));
            }
            e = e + 1;
        }
        assert(self.nodes@.subrange(0, n as int) == self.nodes@);
        let active = mark_active(ni, &edges, self.output_node);
        let ghost mask = active@;
        let ghost nodes = self.nodes@;
        proof {
            lemma_kept(nodes, mask);
            lemma_count_bound(mask);
        }
        let mut new_nodes: Vec<UniversalNode> = Vec::new();
        let mut index_map: Vec<u16> = vec![0u16; n];
        let mut i: usize = 0;
        while i < n
            invariant
                n == nodes.len(),
                mask.len() == n,
                active@ == mask,
                nodes == self.nodes@,
                i <= n,
                index_map@.len() == n,
                new_nodes@ == kept(nodes.subrange(0, i as int), mask.subrange(0, i as int)),
                new_nodes@.len() == rank(mask, i as int),
                rank(mask, i as int) <= i,
                forall|j: int| 0 <= j < i && mask[j] ==> #[trigger] index_map@[j] == rank(mask, j) as u16,
            decreases n - i,
        {
            proof {
                let ni1 = nodes.subrange(0, i + 1);
                let mi1 = mask.subrange(0, i + 1);
                assert(ni1.drop_last() == nodes.subrange(0, i as int));
                assert(mi1.drop_last() == mask.subrange(0, i as int));
                assert(ni1.last() == nodes[i as int]);
                assert(mi1.last() == mask[i as int]);
            }
            if active[i] {
                index_map.set(i, new_nodes.len() as u16);
                new_nodes.push(self.nodes[i]);
            }
            i = i + 1;
        }
        assert(nodes.subrange(0, n as int) == nodes);
        assert(mask.subrange(0, n as int) == mask);
        let ghost kept_nodes = new_nodes@;
        let m = new_nodes.len();
        let mut p: usize = 0;
        while p < m
            invariant
                m == kept_nodes.len(),
                kept_nodes == kept(nodes, mask),
                kept_nodes.len() == count_true(mask),
                mask == self.active_spec(),
                nodes == self.nodes@,
                n == nodes.len(),
                ni == self.num_inputs,
                self.active_reads_ok(),
                index_map@.len() == n,
                forall|j: int| 0 <= j < n && mask[j] ==> #[trigger] index_map@[j] == rank(mask, j) as u16,
                forall|j: int|
                    0 <= j < n && mask[j] ==> #[trigger] rank(mask, j) < kept_nodes.len() && kept_nodes[rank(
                        mask,
                        j,
                    ) as int] == nodes[j],
                forall|q: int| 0 <= q < kept_nodes.len() ==> #[trigger] rank_taken(mask, q),
                p <= m,
                new_nodes@.len() == m,
                forall|q: int| 0 <= q < p ==> #[trigger] new_nodes@[q] == remap_node(ni, mask, kept_nodes[q]),
                forall|q: int| p <= q < m ==> #[trigger] new_nodes@[q] == kept_nodes[q],
            decreases m - p,
        {
            assert(rank_taken(mask, p as int));
            let ghost j = choose|j: int| 0 <= j < mask.len() && mask[j] && #[trigger] rank(mask, j) == p;
            assert(kept_nodes[p as int] == nodes[j]);
            let mut node = new_nodes[p];
            if node.in_a as usize >= ni {
                let old_idx = node.in_a as usize - ni;
                proof {
                    assert(read_remaps(ni, n as int, mask, nodes[j].in_a));
                    assert(mask[j] == is_active(ni, node_reads(nodes), self.output_node, j));
                    assert(node_reads(nodes)[j] == (nodes[j].in_a as usize, nodes[j].in_b as usize));
                    assert(reads_node(ni, node_reads(nodes), j, old_idx as int));
                    lemma_active_closed(ni, node_reads(nodes), self.output_node, j, old_idx as int);
                    assert(mask[old_idx as int]);
                    let rk = rank(mask, old_idx as int);
                    assert(ni <= 0xFFFF);
                    assert((ni as u16) as int == ni);
                    assert((rk as u16) as int == rk);
                }
                node.in_a = (ni as u16) + index_map[old_idx];
            }
            if node.in_b as usize >= ni {
                let old_idx = node.in_b as usize - ni;
                proof {
                    assert(read_remaps(ni, n as int, mask, nodes[j].in_b));
                    assert(mask[j] == is_active(ni, node_reads(nodes), self.output_node, j));
                    assert(node_reads(nodes)[j] == (nodes[j].in_a as usize, nodes[j].in_b as usize));
                    assert(reads_node(ni, node_reads(nodes), j, old_idx as int));
                    lemma_active_closed(ni, node_reads(nodes), self.output_node, j, old_idx as int);
                    assert(mask[old_idx as int]);
                    let rk = rank(mask, old_idx as int);
                    assert(ni <= 0xFFFF);
                    assert((ni as u16) as int == ni);
                    assert((rk as u16) as int == rk);
                }
                node.in_b = (ni as u16) + index_map[old_idx];
            }
            new_nodes.set(p, node);
            p = p + 1;
        }
        let new_output = if self.output_node >= ni {
            let old_idx = self.output_node - ni;
            proof {
                assert forall|s: Set<int>|
                    #[trigger] closed_under_reads(ni, node_reads(nodes), self.output_node, s) implies s.contains(
                    old_idx as int,
                ) by {}
                assert(mask[old_idx as int]);
                lemma_rank_bound(mask, old_idx as int);
            }
            ni + index_map[old_idx] as usize
        } else {
            self.output_node
        };
        Genome { num_inputs: ni, nodes: new_nodes, output_node: new_output }
    }

    /// The genome as a bit string: per node 4 bits of table then 12 bits of
    /// each input index, then 12 bits of the output index.
    pub fn to_bits(&self) -> (bits: Vec<bool>)
        ensures
            bits@ == self.bits_spec(),
    {
        let mut bits: Vec<bool> = Vec::new();
        let n = self.nodes.len();
        let mut k: usize = 0;
        while k < n
            invariant
                n == self.nodes@.len(),
                k <= n,
                bits@ == nodes_bits(self.nodes@.subrange(0, k as int)),
            decreases n - k,
        {
            let node = self.nodes[k];
            let ghost before = bits@;
            let mut i: u8 = 0;
            while i < 4
                invariant
                    i <= 4,
                    bits@ == before + node_bits(node).subrange(0, i as int),
                decreases 4 - i,
            {
                bits.push((node.table >> i) & 1 == 1);
                proof {
                    assert(node_bits(node).subrange(0, i + 1) == node_bits(node).subrange(0, i as int).push(
                        node_bits(node)[i as int],
                    ));
                }
                i = i + 1;
            }
            let mut i: u16 = 0;
            while i < 12
                invariant
                    i <= 12,
                    bits@ == before + node_bits(node).subrange(0, 4 + i),
                decreases 12 - i,
            {
                bits.push((node.in_a >> i) & 1 == 1);
                proof {
                    assert(node_bits(node).subrange(0, 4 + i + 1) == node_bits(node).subrange(0, 4 + i).push(
                        node_bits(node)[4 + i],
                    ));
                }
                i = i + 1;
            }
            let mut i: u16 = 0;
            while i < 12
                invariant
                    i <= 12,
                    bits@ == before + node_bits(node).subrange(0, 16 + i),
                decreases 12 - i,
            {
                bits.push((node.in_b >> i) & 1 == 1);
                proof {
                    assert(node_bits(node).subrange(0, 16 + i + 1) == node_bits(node).subrange(0, 16 + i).push(
                        node_bits(node)[16 + i],
                    ));
                }
                i = i + 1;
            }
            proof {
                assert(node_bits(node).subrange(0, 28) == node_bits(node));
                let next = self.nodes@.subrange(0, k + 1);
                assert(next.drop_last() == self.nodes@.subrange(0, k as int));
                assert(next.last() == node);
            }
            k = k + 1;
        }
        assert(self.nodes@.subrange(0, n as int) == self.nodes@);
        let ghost before = bits@;
        let out = self.output_node as u16;
        let mut i: u16 = 0;
        while i < 12
            invariant
                i <= 12,
                bits@ == before + pointer_bits(out).subrange(0, i as int),
            decreases 12 - i,
        {
            bits.push((out >> i) & 1 == 1);
            proof {
                assert(pointer_bits(out).subrange(0, i + 1) == pointer_bits(out).subrange(0, i as int).push(
                    pointer_bits(out)[i as int],
                ));
            }
            i = i + 1;
        }
        assert(pointer_bits(out).subrange(0, 12) == pointer_bits(out));
        bits
    }
}

/// `v[i]`, or `false` when `i` is out of range.
fn get_or_false(v: &Vec<bool>, i: usize) -> (r: bool)
    ensures
        r == value_or_false(v@, i as int),
{
    if i < v.len() {
        v[i]
    } else {
        false
    }
}

/// A well-formed genome whose value indices fit in 16 bits reads its
/// active nodes in range and renumbers them within 16 bits.
pub proof fn lemma_small_wf_reads_ok(g: Genome)
    requires
        g.wf(),
        g.num_inputs + g.nodes@.len() <= 0xFFFF,
    ensures
        g.active_reads_ok(),
{
    let mask = g.active_spec();
    let ni = g.num_inputs;
    let n = g.nodes@.len() as int;
    assert forall|j: int| 0 <= j < n && #[trigger] mask[j] implies read_remaps(ni, n, mask, g.nodes@[j].in_a)
        && read_remaps(ni, n, mask, g.nodes@[j].in_b) by {
        let a = g.nodes@[j].in_a;
        let b = g.nodes@[j].in_b;
        if a as usize >= ni {
            lemma_count_bound(mask.subrange(0, a - ni));
        }
        if b as usize >= ni {
            lemma_count_bound(mask.subrange(0, b - ni));
        }
    }
}

/// Every node reads only inputs or earlier nodes.
pub open spec fn reads_backward(ni: int, nodes: Seq<UniversalNode>) -> bool {
    forall|k: int| 0 <= k < nodes.len() ==> (#[trigger] nodes[k]).in_a < ni + k && nodes[k].in_b < ni + k
}

/// The nodes `get_active_genome` keeps: the active ones, in order, renumbered.
pub open spec fn active_nodes(ni: usize, nodes: Seq<UniversalNode>, out: usize) -> Seq<UniversalNode> {
    let mask = active_mask(ni, node_reads(nodes), out);
    kept(nodes, mask).map_values(|nd: UniversalNode| remap_node(ni, mask, nd))
}

/// The output `get_active_genome` gives: the output renumbered.
pub open spec fn active_output(ni: usize, nodes: Seq<UniversalNode>, out: usize) -> int {
    let mask = active_mask(ni, node_reads(nodes), out);
    if out >= ni {
        ni + ((rank(mask, out - ni) as u16) as int)
    } else {
        out as int
    }
}

proof fn lemma_uvalues_len(inputs: Seq<bool>, nodes: Seq<UniversalNode>)
    ensures
        values(inputs, nodes).len() == inputs.len() + nodes.len(),
    decreases nodes.len(),
{
    if nodes.len() > 0 {
        lemma_uvalues_len(inputs, nodes.drop_last());
    }
}

proof fn lemma_uvalues_prefix(inputs: Seq<bool>, nodes: Seq<UniversalNode>, k: int)
    requires
        0 <= k <= nodes.len(),
    ensures
        values(inputs, nodes.subrange(0, k)) == values(inputs, nodes).subrange(0, inputs.len() + k),
    decreases nodes.len(),
{
    lemma_uvalues_len(inputs, nodes);
    if k == nodes.len() {
        assert(nodes.subrange(0, k) == nodes);
    } else {
        let d = nodes.drop_last();
        assert(d.subrange(0, k) == nodes.subrange(0, k));
        lemma_uvalues_prefix(inputs, d, k);
        lemma_uvalues_len(inputs, d);
    }
}

/// Value `inputs.len() + k` is node `k`'s table applied to two earlier values.
proof fn lemma_uvalues_node(inputs: Seq<bool>, nodes: Seq<UniversalNode>, k: int)
    requires
        0 <= k < nodes.len(),
        nodes[k].in_a < inputs.len() + k,
        nodes[k].in_b < inputs.len() + k,
    ensures
        values(inputs, nodes)[inputs.len() + k] == table_bit(
            nodes[k].table,
            values(inputs, nodes)[nodes[k].in_a as int],
            values(inputs, nodes)[nodes[k].in_b as int],
        ),
{
    let pre = nodes.subrange(0, k + 1);
    let l = inputs.len();
    lemma_uvalues_prefix(inputs, nodes, k + 1);
    lemma_uvalues_prefix(inputs, nodes, k);
    assert(pre.drop_last() == nodes.subrange(0, k));
    assert(pre.last() == nodes[k]);
    lemma_uvalues_len(inputs, nodes.subrange(0, k));
    lemma_uvalues_len(inputs, nodes);
    let full = values(inputs, nodes);
    let vk = values(inputs, nodes.subrange(0, k));
    assert(full[l + k] == values(inputs, pre)[l + k]);
    assert(vk[nodes[k].in_a as int] == full[nodes[k].in_a as int]);
    assert(vk[nodes[k].in_b as int] == full[nodes[k].in_b as int]);
}

proof fn lemma_uvalues_inputs(inputs: Seq<bool>, nodes: Seq<UniversalNode>, i: int)
    requires
        0 <= i < inputs.len(),
    ensures
        values(inputs, nodes)[i] == inputs[i],
{
    lemma_uvalues_prefix(inputs, nodes, 0);
    assert(nodes.subrange(0, 0) == Seq::<UniversalNode>::empty());
    lemma_uvalues_len(inputs, nodes);
}

/// Renumbering a read of an active node: an input stays, node `k` becomes
/// the value of its rank, within 16 bits.
proof fn lemma_remap_read(ni: usize, nodes: Seq<UniversalNode>, out: usize, j: int, i: u16)
    requires
        reads_backward(ni as int, nodes),
        ni + nodes.len() <= 0xFFFF,
        0 <= j < nodes.len(),
        active_mask(ni, node_reads(nodes), out)[j],
        i == nodes[j].in_a || i == nodes[j].in_b,
    ensures
        i as usize >= ni ==> {
            let mask = active_mask(ni, node_reads(nodes), out);
            let k = i - ni;
            &&& 0 <= k < j
            &&& mask[k]
            &&& remap_index(ni, mask, i) == ni + rank(mask, k)
            &&& rank(mask, k) < rank(mask, j)
        },
        (i as usize) < ni ==> remap_index(ni, active_mask(ni, node_reads(nodes), out), i) == i,
{
    let mask = active_mask(ni, node_reads(nodes), out);
    if i as usize >= ni {
        let k = i - ni;
        assert(node_reads(nodes)[j] == (nodes[j].in_a as usize, nodes[j].in_b as usize));
        assert(reads_node(ni, node_reads(nodes), j, k));
        lemma_active_closed(ni, node_reads(nodes), out, j, k);
        lemma_rank_monotone(mask, k, j);
        lemma_rank_bound(mask, j);
        lemma_count_bound(mask);
    }
}

/// The output node of a network is active.
proof fn lemma_out_active(ni: usize, nodes: Seq<UniversalNode>, out: usize)
    requires
        ni <= out < ni + nodes.len(),
    ensures
        active_mask(ni, node_reads(nodes), out)[out - ni],
{
    let er = node_reads(nodes);
    assert forall|s2: Set<int>| #[trigger] closed_under_reads(ni, er, out, s2) implies s2.contains(out - ni) by {}
}

/// The active nodes read backward, and the renumbered output names one of
/// the values.
pub proof fn lemma_active_wf(ni: usize, nodes: Seq<UniversalNode>, out: usize)
    requires
        reads_backward(ni as int, nodes),
        out < ni + nodes.len(),
        ni + nodes.len() <= 0xFFFF,
    ensures
        reads_backward(ni as int, active_nodes(ni, nodes, out)),
        active_output(ni, nodes, out) < ni + active_nodes(ni, nodes, out).len(),
        active_nodes(ni, nodes, out).len() == count_true(active_mask(ni, node_reads(nodes), out)),
{
    let mask = active_mask(ni, node_reads(nodes), out);
    let c = active_nodes(ni, nodes, out);
    lemma_kept(nodes, mask);
    lemma_count_bound(mask);
    assert forall|p: int| 0 <= p < c.len() implies (#[trigger] c[p]).in_a < ni + p && c[p].in_b < ni + p by {
        assert(rank_taken(mask, p));
        let j = choose|j: int| 0 <= j < mask.len() && mask[j] && #[trigger] rank(mask, j) == p;
        assert(kept(nodes, mask)[p] == nodes[j]);
        assert(c[p] == remap_node(ni, mask, nodes[j]));
        lemma_remap_read(ni, nodes, out, j, nodes[j].in_a);
        lemma_remap_read(ni, nodes, out, j, nodes[j].in_b);
    }
    if out >= ni {
        lemma_out_active(ni, nodes, out);
        lemma_rank_bound(mask, out - ni);
    }
}

/// Each active node computes the same value among the active nodes, at its
/// rank.
proof fn lemma_active_value(inputs: Seq<bool>, ni: usize, nodes: Seq<UniversalNode>, out: usize, j: int)
    requires
        inputs.len() == ni,
        reads_backward(ni as int, nodes),
        out < ni + nodes.len(),
        ni + nodes.len() <= 0xFFFF,
        0 <= j < nodes.len(),
        active_mask(ni, node_reads(nodes), out)[j],
    ensures
        values(inputs, active_nodes(ni, nodes, out))[ni + rank(active_mask(ni, node_reads(nodes), out), j)]
            == values(inputs, nodes)[ni + j],
    decreases j,
{
    let mask = active_mask(ni, node_reads(nodes), out);
    let c = active_nodes(ni, nodes, out);
    lemma_kept(nodes, mask);
    lemma_active_wf(ni, nodes, out);
    lemma_count_bound(mask);
    let p = rank(mask, j) as int;
    let nd = nodes[j];
    assert(c[p] == remap_node(ni, mask, nd));
    lemma_uvalues_node(inputs, c, p);
    lemma_uvalues_node(inputs, nodes, j);
    lemma_uvalues_len(inputs, c);
    lemma_uvalues_len(inputs, nodes);
    lemma_remap_read(ni, nodes, out, j, nd.in_a);
    lemma_remap_read(ni, nodes, out, j, nd.in_b);
    if nd.in_a as usize >= ni {
        lemma_active_value(inputs, ni, nodes, out, nd.in_a - ni);
    } else {
        lemma_uvalues_inputs(inputs, c, nd.in_a as int);
        lemma_uvalues_inputs(inputs, nodes, nd.in_a as int);
    }
    if nd.in_b as usize >= ni {
        lemma_active_value(inputs, ni, nodes, out, nd.in_b - ni);
    } else {
        lemma_uvalues_inputs(inputs, c, nd.in_b as int);
        lemma_uvalues_inputs(inputs, nodes, nd.in_b as int);
    }
}

/// Keeping only the active nodes preserves the function: on every input
/// vector, the active genome outputs what the genome outputs.
pub proof fn lemma_active_preserves_output(inputs: Seq<bool>, ni: usize, nodes: Seq<UniversalNode>, out: usize)
    requires
        inputs.len() == ni,
        reads_backward(ni as int, nodes),
        out < ni + nodes.len(),
        ni + nodes.len() <= 0xFFFF,
    ensures
        value_or_false(values(inputs, active_nodes(ni, nodes, out)), active_output(ni, nodes, out))
            == value_or_false(values(inputs, nodes), out as int),
{
    let mask = active_mask(ni, node_reads(nodes), out);
    let c = active_nodes(ni, nodes, out);
    lemma_active_wf(ni, nodes, out);
    lemma_uvalues_len(inputs, c);
    lemma_uvalues_len(inputs, nodes);
    lemma_count_bound(mask);
    if out >= ni {
        lemma_out_active(ni, nodes, out);
        lemma_rank_bound(mask, out - ni);
        lemma_active_value(inputs, ni, nodes, out, out - ni);
    } else {
        lemma_uvalues_inputs(inputs, c, out as int);
        lemma_uvalues_inputs(inputs, nodes, out as int);
    }
}

/// Every node of the active genome is active in it.
proof fn lemma_active_all_active(ni: usize, nodes: Seq<UniversalNode>, out: usize)
    requires
        reads_backward(ni as int, nodes),
        out < ni + nodes.len(),
        ni + nodes.len() <= 0xFFFF,
    ensures
        all_set(
            active_mask(ni, node_reads(active_nodes(ni, nodes, out)), active_output(ni, nodes, out) as usize),
        ),
{
    let mask = active_mask(ni, node_reads(nodes), out);
    let c = active_nodes(ni, nodes, out);
    let o = active_output(ni, nodes, out) as usize;
    let er = node_reads(nodes);
    let ec = node_reads(c);
    lemma_kept(nodes, mask);
    lemma_active_wf(ni, nodes, out);
    lemma_count_bound(mask);
    let m2 = active_mask(ni, ec, o);
    assert forall|p: int| 0 <= p < m2.len() implies #[trigger] m2[p] by {
        assert forall|s: Set<int>| #[trigger] closed_under_reads(ni, ec, o, s) implies s.contains(p) by {
            let t = Set::new(|j: int| 0 <= j < nodes.len() && mask[j] && s.contains(rank(mask, j) as int));
            if out >= ni && out - ni < er.len() {
                let jo = out - ni;
                lemma_out_active(ni, nodes, out);
                lemma_rank_bound(mask, jo as int);
                assert(o >= ni && o - ni == rank(mask, jo as int));
                assert(s.contains(rank(mask, jo as int) as int));
                assert(t.contains(jo as int));
            }
            assert forall|k: int, j: int|
                #![trigger t.contains(k), reads_node(ni, er, k, j)]
                0 <= k < er.len() && 0 <= j < er.len() && t.contains(k) && reads_node(ni, er, k, j) implies t.contains(j) by {
                lemma_active_closed(ni, er, out, k, j);
                lemma_rank_bound(mask, k);
                lemma_rank_bound(mask, j);
                let rk = rank(mask, k) as int;
                let rj = rank(mask, j) as int;
                assert(er[k] == (nodes[k].in_a as usize, nodes[k].in_b as usize));
                assert(c[rk] == remap_node(ni, mask, nodes[k]));
                lemma_remap_read(ni, nodes, out, k, nodes[k].in_a);
                lemma_remap_read(ni, nodes, out, k, nodes[k].in_b);
                assert(ec[rk] == (c[rk].in_a as usize, c[rk].in_b as usize));
                assert(reads_node(ni, ec, rk, rj));
                assert(s.contains(rk));
                assert(s.contains(rj));
            }
            assert(closed_under_reads(ni, er, out, t));
            assert(rank_taken(mask, p));
            let j = choose|j: int| 0 <= j < mask.len() && mask[j] && #[trigger] rank(mask, j) == p;
            assert(is_active(ni, er, out, j));
            assert(t.contains(j));
        }
    }
}

/// Taking the active genome is idempotent: on an active genome it changes
/// neither the nodes nor the output.
pub proof fn lemma_active_idempotent(ni: usize, nodes: Seq<UniversalNode>, out: usize)
    requires
        reads_backward(ni as int, nodes),
        out < ni + nodes.len(),
        ni + nodes.len() <= 0xFFFF,
    ensures
        ({
            let c = active_nodes(ni, nodes, out);
            let o = active_output(ni, nodes, out) as usize;
            active_nodes(ni, c, o) == c && active_output(ni, c, o) == o
        }),
{
    let mask = active_mask(ni, node_reads(nodes), out);
    let c = active_nodes(ni, nodes, out);
    let o = active_output(ni, nodes, out) as usize;
    let m2 = active_mask(ni, node_reads(c), o);
    lemma_active_all_active(ni, nodes, out);
    lemma_active_wf(ni, nodes, out);
    lemma_count_bound(mask);
    lemma_kept_all(c, m2);
    assert forall|p: int| 0 <= p < c.len() implies #[trigger] remap_node(ni, m2, c[p]) == c[p] by {
        if c[p].in_a as usize >= ni {
            lemma_all_set_rank(m2, c[p].in_a - ni);
        }
        if c[p].in_b as usize >= ni {
            lemma_all_set_rank(m2, c[p].in_b - ni);
        }
    }
    assert(kept(c, m2).map_values(|nd: UniversalNode| remap_node(ni, m2, nd)) =~= c);
    if o >= ni {
        lemma_all_set_rank(m2, o - ni);
    }
}

} // verus!
