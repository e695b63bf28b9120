//! Feed-forward networks of Boolean gates with several outputs.
use vstd::prelude::*;
use rand_chacha::ChaCha8Rng;
use crate::random::{random_usize_below, random_i32_below, random_ratio};

verus! {

#[derive(Debug, Clone, Copy, PartialEq, Eq, Structural)]
#[allow(non_camel_case_types, clippy::upper_case_acronyms)]
pub enum Operation {
    AND,
    OR,
    XOR,
    NAND,
    NOR,
    NOT,
    WIRE,
}

/// Meaning of each operation (`NOT` and `WIRE` use input A only).
pub open spec fn op_eval(op: Operation, a: bool, b: bool) -> bool {
    match op {
        Operation::AND => a && b,
        Operation::OR => a || b,
        Operation::XOR => a != b,
        Operation::NAND => !(a && b),
        Operation::NOR => !(a || b),
        Operation::NOT => !a,
        Operation::WIRE => a,
    }
}

/// The operations behave as their names say: AND is true exactly when both
/// inputs are, OR exactly when at least one is, XOR exactly when they
/// differ; NAND and NOR are the negations of AND and OR; NOT inverts input A
/// and WIRE copies it, both ignoring input B.
pub proof fn lemma_op_laws(a: bool, b: bool)
    ensures
        op_eval(Operation::AND, a, b) <==> (a && b),
        op_eval(Operation::OR, a, b) <==> (a || b),
        op_eval(Operation::OR, true, b) && op_eval(Operation::OR, a, true),
        !op_eval(Operation::OR, false, false),
        op_eval(Operation::XOR, a, b) <==> (op_eval(Operation::OR, a, b) && !op_eval(Operation::AND, a, b)),
        op_eval(Operation::XOR, a, b) == op_eval(Operation::XOR, b, a),
        !op_eval(Operation::XOR, a, a),
        op_eval(Operation::NAND, a, b) == !op_eval(Operation::AND, a, b),
        op_eval(Operation::NOR, a, b) == !op_eval(Operation::OR, a, b),
        op_eval(Operation::NOT, a, b) == op_eval(Operation::NOT, a, !b) && op_eval(Operation::NOT, a, b) != a,
        op_eval(Operation::WIRE, a, b) == op_eval(Operation::WIRE, a, !b) && op_eval(Operation::WIRE, a, b) == a,
{
}

/// The operation numbered `i` in the order AND, OR, XOR, NAND, NOR, NOT;
/// every other number is WIRE.
pub open spec fn op_from_index_spec(i: i32) -> Operation {
    if i == 0 {
        Operation::AND
    } else if i == 1 {
        Operation::OR
    } else if i == 2 {
        Operation::XOR
    } else if i == 3 {
        Operation::NAND
    } else if i == 4 {
        Operation::NOR
    } else if i == 5 {
        Operation::NOT
    } else {
        Operation::WIRE
    }
}

impl Operation {
    pub fn from_index(i: i32) -> (r: Operation)
        ensures
            r == op_from_index_spec(i),
    {
        match i {
            0 => Operation::AND,
            1 => Operation::OR,
            2 => Operation::XOR,
            3 => Operation::NAND,
            4 => Operation::NOR,
            5 => Operation::NOT,
            _ => Operation::WIRE,
        }
    }

    /// A uniformly drawn operation.
    pub fn random(rng: &mut ChaCha8Rng) -> (r: Operation)
        ensures
            exists|i: i32| 0 <= i < 7 && r == op_from_index_spec(i),
    {
        let i = random_i32_below(rng, 7);
        Operation::from_index(i)
    }

    pub fn eval(&self, a: bool, b: bool) -> (r: bool)
        ensures
            r == op_eval(*self, a, b),
    {
        match self {
            Operation::AND => a && b,
            Operation::OR => a || b,
            Operation::XOR => a != b,
            Operation::NAND => !(a && b),
            Operation::NOR => !(a || b),
            Operation::NOT => !a,
            Operation::WIRE => a,
        }
    }
}

#[derive(Debug, Clone, Copy)]
pub struct Node {
    pub op: Operation,
    pub in_a: usize,
    pub in_b: usize,
}

#[derive(Debug, Clone)]
pub struct Genome {
    pub num_inputs: usize,
    pub nodes: Vec<Node>,
    /// Value index of each output.
    pub outputs: Vec<usize>,
}

/// Value `i`, or `false` when there is none.
pub open spec fn value_or_false(v: Seq<bool>, i: int) -> bool {
    if 0 <= i < v.len() { v[i] } else { false }
}

/// The inputs followed by one value per node; a read outside the values so
/// far gives `false`.
pub open spec fn values(inputs: Seq<bool>, nodes: Seq<Node>) -> Seq<bool>
    decreases nodes.len(),
{
    if nodes.len() == 0 {
        inputs
    } else {
        let v = values(inputs, nodes.drop_last());
        let n = nodes.last();
        v.push(op_eval(n.op, value_or_false(v, n.in_a as int), value_or_false(v, n.in_b as int)))
    }
}

proof fn lemma_mvalues_len(inputs: Seq<bool>, nodes: Seq<Node>)
    ensures
        values(inputs, nodes).len() == inputs.len() + nodes.len(),
    decreases nodes.len(),
{
    if nodes.len() > 0 {
        lemma_mvalues_len(inputs, nodes.drop_last());
    }
}

proof fn lemma_mvalues_prefix(inputs: Seq<bool>, nodes: Seq<Node>, k: int)
    requires
        0 <= k <= nodes.len(),
    ensures
        values(inputs, nodes.subrange(0, k)) == values(inputs, nodes).subrange(0, inputs.len() + k),
    decreases nodes.len(),
{
    lemma_mvalues_len(inputs, nodes);
    if k == nodes.len() {
        assert(nodes.subrange(0, k) == nodes);
    } else {
        let d = nodes.drop_last();
        assert(d.subrange(0, k) == nodes.subrange(0, k));
        lemma_mvalues_prefix(inputs, d, k);
        lemma_mvalues_len(inputs, d);
    }
}

/// In a network, node `k` (reading values computed before it) outputs its
/// operation on the two values it reads: an OR node is true exactly when one
/// of its reads is, an AND node exactly when both are, a XOR node exactly
/// when they differ, NAND and NOR their negations, NOT the inverse of its
/// first read and WIRE a copy of it.
pub proof fn lemma_node_value(inputs: Seq<bool>, nodes: Seq<Node>, k: int)
    requires
        0 <= k < nodes.len(),
        nodes[k].in_a < inputs.len() + k,
        nodes[k].in_b < inputs.len() + k,
    ensures
        ({
            let v = values(inputs, nodes);
            let x = v[nodes[k].in_a as int];
            let y = v[nodes[k].in_b as int];
            let r = v[inputs.len() + k];
            &&& nodes[k].op == Operation::AND ==> (r <==> x && y)
            &&& nodes[k].op == Operation::OR ==> (r <==> x || y)
            &&& nodes[k].op == Operation::XOR ==> (r <==> x != y)
            &&& nodes[k].op == Operation::NAND ==> (r <==> !(x && y))
            &&& nodes[k].op == Operation::NOR ==> (r <==> !(x || y))
            &&& nodes[k].op == Operation::NOT ==> (r <==> !x)
            &&& nodes[k].op == Operation::WIRE ==> (r <==> x)
        }),
{
    let pre = nodes.subrange(0, k + 1);
    let l = inputs.len();
    lemma_mvalues_prefix(inputs, nodes, k + 1);
    lemma_mvalues_prefix(inputs, nodes, k);
    assert(pre.drop_last() == nodes.subrange(0, k));
    assert(pre.last() == nodes[k]);
    lemma_mvalues_len(inputs, nodes.subrange(0, k));
    lemma_mvalues_len(inputs, nodes);
    let full = values(inputs, nodes);
    let vk = values(inputs, nodes.subrange(0, k));
    assert(full[l + k] == values(inputs, pre)[l + k]);
    assert(value_or_false(vk, nodes[k].in_a as int) == full[nodes[k].in_a as int]);
    assert(value_or_false(vk, nodes[k].in_b as int) == full[nodes[k].in_b as int]);
    lemma_op_laws(full[nodes[k].in_a as int], full[nodes[k].in_b as int]);
}

/// Outputs of `nodes` on `inputs` at the value indices `outputs`.
pub open spec fn outputs_spec(inputs: Seq<bool>, nodes: Seq<Node>, outputs: Seq<usize>) -> Seq<bool> {
    outputs.map_values(|i: usize| value_or_false(values(inputs, nodes), i as int))
}

/// `max(x, 1)`.
pub open spec fn at_least_one(x: int) -> int {
    if x >= 1 { x } else { 1 }
}

/// `child` is `parent` after a mutation: same inputs, node count and output
/// count; each node `k` keeps all but at most one field, with a changed
/// input below `max(num_inputs + k, 1)`; each output is kept or reads a
/// value.
pub open spec fn genome_mutated_from(parent: Genome, child: Genome) -> bool {
    &&& child.num_inputs == parent.num_inputs
    &&& child.nodes@.len() == parent.nodes@.len()
    &&& child.outputs@.len() == parent.outputs@.len()
    &&& forall|k: int|
        0 <= k < parent.nodes@.len() ==> #[trigger] node_mutated_from(
            at_least_one(parent.num_inputs + k),
            parent.nodes@[k],
            child.nodes@[k],
        )
    &&& forall|q: int|
        0 <= q < parent.outputs@.len() ==> #[trigger] child.outputs@[q] == parent.outputs@[q] || child.outputs@[q]
            < parent.num_inputs + parent.nodes@.len()
}

/// `after` is `before` with at most one of op, input A or input B changed,
/// and a changed input reads a value below `limit`.
pub open spec fn node_mutated_from(limit: int, before: Node, after: Node) -> bool {
    ||| after == before
    ||| after.in_a == before.in_a && after.in_b == before.in_b
    ||| after.op == before.op && after.in_b == before.in_b && after.in_a < limit
    ||| after.op == before.op && after.in_a == before.in_a && after.in_b < limit
}

impl Genome {
    /// Every node reads below `max(num_inputs + i, 1)` and every output names
    /// a value.
    pub open spec fn wf(&self) -> bool {
        &&& forall|k: int|
            0 <= k < self.nodes@.len() ==> (#[trigger] self.nodes@[k]).in_a < at_least_one(
                self.num_inputs + k,
            ) && self.nodes@[k].in_b < at_least_one(self.num_inputs + k)
        &&& forall|q: int|
            0 <= q < self.outputs@.len() ==> #[trigger] self.outputs@[q] < self.num_inputs + self.nodes@.len()
    }

    /// A random genome: node `i` reads two values drawn below
    /// `max(num_inputs + i, 1)`, each output is drawn below
    /// `num_inputs + num_nodes`.
    pub fn new_random(num_inputs: usize, num_nodes: usize, num_outputs: usize, rng: &mut ChaCha8Rng) -> (g: Genome)
        requires
            num_inputs + num_nodes <= usize::MAX,
            num_outputs > 0 ==> num_inputs + num_nodes > 0,
        ensures
            g.num_inputs == num_inputs,
            g.nodes@.len() == num_nodes,
            g.outputs@.len() == num_outputs,
            g.wf(),
    {
        let mut nodes: Vec<Node> = Vec::with_capacity(num_nodes);
        let mut i: usize = 0;
        while i < num_nodes
            invariant
                i <= num_nodes,
                num_inputs + num_nodes <= usize::MAX,
                nodes@.len() == i,
                forall|k: int|
                    0 <= k < i ==> (#[trigger] nodes@[k]).in_a < at_least_one(num_inputs + k) && nodes@[k].in_b
                        < at_least_one(num_inputs + k),
            decreases num_nodes - i,
        {
            let limit = num_inputs + i;
            let bound = if limit > 1 { limit } else { 1 };
            let op = Operation::random(rng);
            let in_a = random_usize_below(rng, bound);
            let in_b = random_usize_below(rng, bound);
            nodes.push(Node { op, in_a, in_b });
            i = i + 1;
        }
        let mut outputs: Vec<usize> = Vec::with_capacity(num_outputs);
        let limit = num_inputs + num_nodes;
        let mut q: usize = 0;
        while q < num_outputs
            invariant
                q <= num_outputs,
                limit == num_inputs + num_nodes,
                num_outputs > 0 ==> limit > 0,
                outputs@.len() == q,
                forall|k: int| 0 <= k < q ==> #[trigger] outputs@[k] < limit,
            decreases num_outputs - q,
        {
            outputs.push(random_usize_below(rng, limit));
            q = q + 1;
        }
        Genome { num_inputs, nodes, outputs }
    }

    /// Mutates each node (op, input A or input B drawn anew) and then each
    /// output, each with probability `rate_numerator / rate_denominator`.
    /// Node `i` keeps all but at most one field, a redrawn input of it reads
    /// below `max(num_inputs + i, 1)`, and a redrawn output reads below
    /// `num_inputs + nodes.len()`; at full rate every output is redrawn.
    pub fn mutate(&mut self, rate_numerator: u32, rate_denominator: u32, rng: &mut ChaCha8Rng)
        requires
            rate_denominator > 0,
            rate_numerator <= rate_denominator,
            rate_numerator == 0 || old(self).outputs@.len() == 0 || old(self).num_inputs + old(
                self,
            ).nodes@.len() > 0,
            old(self).num_inputs + old(self).nodes@.len() <= usize::MAX,
        ensures
            final(self).num_inputs == old(self).num_inputs,
            final(self).nodes@.len() == old(self).nodes@.len(),
            final(self).outputs@.len() == old(self).outputs@.len(),
            rate_numerator == 0 ==> final(self).nodes@ == old(self).nodes@ && final(self).outputs@ == old(
                self,
            ).outputs@,
            forall|i: int|
                0 <= i < old(self).nodes@.len() ==> #[trigger] node_mutated_from(
                    at_least_one(old(self).num_inputs + i),
                    old(self).nodes@[i],
                    final(self).nodes@[i],
                ),
            forall|q: int|
                0 <= q < old(self).outputs@.len() ==> #[trigger] final(self).outputs@[q] == old(self).outputs@[q]
                    || final(self).outputs@[q] < old(self).num_inputs + old(self).nodes@.len(),
            rate_numerator == rate_denominator ==> forall|q: int|
                0 <= q < old(self).outputs@.len() ==> #[trigger] final(self).outputs@[q] < old(self).num_inputs
                    + old(self).nodes@.len(),
            old(self).wf() ==> final(self).wf(),
    {
        let n = self.nodes.len();
        let ni = self.num_inputs;
        let ghost start = self.nodes@;
        let mut i: usize = 0;
        while i < n
            invariant
                n == start.len(),
                ni == self.num_inputs,
                ni == old(self).num_inputs,
                start == old(self).nodes@,
                self.outputs@ == old(self).outputs@,
                rate_denominator > 0,
                rate_numerator <= rate_denominator,
                ni + n <= usize::MAX,
                i <= n,
                self.nodes@.len() == n,
                rate_numerator == 0 ==> self.nodes@ == start,
                forall|k: int| i <= k < n ==> #[trigger] self.nodes@[k] == start[k],
                forall|k: int|
                    0 <= k < i ==> #[trigger] node_mutated_from(at_least_one(ni + k), start[k], self.nodes@[k]),
                old(self).wf() ==> forall|k: int|
                    0 <= k < n ==> (#[trigger] self.nodes@[k]).in_a < at_least_one(ni + k) && self.nodes@[k].in_b
                        < at_least_one(ni + k),
            decreases n - i,
        {
            if random_ratio(rng, rate_numerator, rate_denominator) {
                let mut node = self.nodes[i];
                let limit = ni + i;
                let bound = if limit > 1 { limit } else { 1 };
                let choice = random_i32_below(rng, 3);
                match choice {
                    0 => {
                        node.op = Operation::random(rng);
                    },
                    1 => {
                        node.in_a = random_usize_below(rng, bound);
                    },
                    2 => {
                        node.in_b = random_usize_below(rng, bound);
                    },
                    _ => {},
                }
                self.nodes.set(i, node);
            }
            i = i + 1;
        }
        let m = self.outputs.len();
        let limit = ni + n;
        let ghost nodes_after = self.nodes@;
        let mut q: usize = 0;
        while q < m
            invariant
                self.nodes@ == nodes_after,
                rate_numerator == 0 ==> nodes_after == old(self).nodes@,
                forall|k: int|
                    0 <= k < n ==> #[trigger] node_mutated_from(
                        at_least_one(ni + k),
                        old(self).nodes@[k],
                        nodes_after[k],
                    ),
                old(self).wf() ==> forall|k: int|
                    0 <= k < n ==> (#[trigger] nodes_after[k]).in_a < at_least_one(ni + k) && nodes_after[k].in_b
                        < at_least_one(ni + k),
                m == self.outputs@.len(),
                m == old(self).outputs@.len(),
                limit == ni + n,
                ni == self.num_inputs,
                n == self.nodes@.len(),
                rate_denominator > 0,
                rate_numerator <= rate_denominator,
                rate_numerator == 0 || m == 0 || limit > 0,
                q <= m,
                rate_numerator == 0 ==> self.outputs@ == old(self).outputs@,
                forall|k: int| q <= k < m ==> #[trigger] self.outputs@[k] == old(self).outputs@[k],
                forall|k: int|
                    0 <= k < q ==> #[trigger] self.outputs@[k] == old(self).outputs@[k] || self.outputs@[k] < limit,
                rate_numerator == rate_denominator ==> forall|k: int| 0 <= k < q ==> #[trigger] self.outputs@[k] < limit,
                old(self).wf() ==> forall|k: int| 0 <= k < m ==> #[trigger] self.outputs@[k] < limit,
            decreases m - q,
        {
            if random_ratio(rng, rate_numerator, rate_denominator) {
                let v = random_usize_below(rng, limit);
                self.outputs.set(q, v);
            }
            q = q + 1;
        }
    }

    /// Evaluates the network and returns the value at each output; reads
    /// outside the values computed so far give `false`.
    pub fn eval(&self, inputs: &[bool]) -> (r: Vec<bool>)
        ensures
            r@ == outputs_spec(inputs@, self.nodes@, self.outputs@),
    {
        let mut vals: Vec<bool> = Vec::with_capacity(self.num_inputs);
        vals.extend_from_slice(inputs);
        assert(vals@ == inputs@);
        let n = self.nodes.len();
        let mut k: usize = 0;
        while k < n
            invariant
                n == self.nodes@.len(),
                k <= n,
                vals@ == values(inputs@, self.nodes@.subrange(0, k as int)),
            decreases n - k,
        {
            let node = self.nodes[k];
            let val_a = get_or_false(&vals, node.in_a);
            let val_b = get_or_false(&vals, node.in_b);
            vals.push(node.op.eval(val_a, val_b));
            proof {
                let next = self.nodes@.subrange(0, k + 1);
                assert(next.drop_last() == self.nodes@.subrange(0, k as int));
                assert(next.last() == node);
            }
            k = k + 1;
        }
        assert(self.nodes@.subrange(0, n as int) == self.nodes@);
        let mut out: Vec<bool> = Vec::with_capacity(self.outputs.len());
        let mut q: usize = 0;
        while q < self.outputs.len()
            invariant
                q <= self.outputs@.len(),
                vals@ == values(inputs@, self.nodes@),
                out@ == outputs_spec(inputs@, self.nodes@, self.outputs@.subrange(0, q as int)),
            decreases self.outputs@.len() - q,
        {
            out.push(get_or_false(&vals, self.outputs[q]));
            proof {
                assert(self.outputs@.subrange(0, q + 1) == self.outputs@.subrange(0, q as int).push(
                    self.outputs@[q as int],
                ));
            }
            q = q + 1;
        }
        assert(self.outputs@.subrange(0, self.outputs@.len() as int) == self.outputs@);
        out
    }
}

/// `v[i]`, or `false` when `i` is out of range.
fn get_or_false(v: &Vec<bool>, i: usize) -> (r: bool)
    ensures
        r == value_or_false(v@, i as int),
{
    if i < v.len() {
        v[i]
    } else {
        false
    }
}

} // verus!
