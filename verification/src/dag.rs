//! Which nodes of a feed-forward network its output depends on, and how the
//! surviving nodes are renumbered when the others are dropped.
//!
//! A network is given by its reads: `edges[k] = (a, b)` are the two value
//! indices node `k` reads, where index `i < num_inputs` is an input and index
//! `num_inputs + j` is node `j`.
use vstd::prelude::*;

verus! {

/// Number of `true` entries.
pub open spec fn count_true(s: Seq<bool>) -> nat
    decreases s.len(),
{
    if s.len() == 0 {
        0
    } else {
        count_true(s.drop_last()) + if s.last() {
            1nat
        } else {
            0nat
        }
    }
}

pub proof fn lemma_count_bound(s: Seq<bool>)
    ensures
        count_true(s) <= s.len(),
    decreases s.len(),
{
    if s.len() > 0 {
        lemma_count_bound(s.drop_last());
    }
}

pub proof fn lemma_count_update(s: Seq<bool>, j: int)
    requires
        0 <= j < s.len(),
        !s[j],
    ensures
        count_true(s.update(j, true)) == count_true(s) + 1,
    decreases s.len(),
{
    let t = s.update(j, true);
    if j == s.len() - 1 {
        assert(t.drop_last() == s.drop_last());
    } else {
        assert(t.drop_last() == s.drop_last().update(j, true));
        lemma_count_update(s.drop_last(), j);
    }
}

/// Node `k` reads node `j` (through its first or second read).
pub open spec fn reads_node(num_inputs: usize, edges: Seq<(usize, usize)>, k: int, j: int) -> bool {
    ||| edges[k].0 >= num_inputs && edges[k].0 - num_inputs == j
    ||| edges[k].1 >= num_inputs && edges[k].1 - num_inputs == j
}

/// A set of node indices that holds the output node (when it is a node) and
/// every node read by a node in the set.
pub open spec fn closed_under_reads(num_inputs: usize, edges: Seq<(usize, usize)>, out: usize, s: Set<int>) -> bool {
    &&& (out >= num_inputs && out - num_inputs < edges.len()) ==> s.contains(out - num_inputs)
    &&& forall|k: int, j: int|
        #![trigger s.contains(k), reads_node(num_inputs, edges, k, j)]
        0 <= k < edges.len() && 0 <= j < edges.len() && s.contains(k) && reads_node(num_inputs, edges, k, j)
            ==> s.contains(j)
}

/// Node `j` is active: it lies in every set closed under reads, i.e. the
/// output depends on it.
pub open spec fn is_active(num_inputs: usize, edges: Seq<(usize, usize)>, out: usize, j: int) -> bool {
    forall|s: Set<int>| #[trigger] closed_under_reads(num_inputs, edges, out, s) ==> s.contains(j)
}

/// Which nodes are active.
pub open spec fn active_mask(num_inputs: usize, edges: Seq<(usize, usize)>, out: usize) -> Seq<bool> {
    Seq::new(edges.len(), |j: int| is_active(num_inputs, edges, out, j))
}

/// Position of node `j` among the active nodes: the number of active nodes
/// before it.
pub open spec fn rank(mask: Seq<bool>, j: int) -> nat {
    count_true(mask.subrange(0, j))
}

/// The nodes whose mask entry is set, in order.
pub open spec fn kept<T>(nodes: Seq<T>, mask: Seq<bool>) -> Seq<T>
    decreases nodes.len(),
{
    if nodes.len() == 0 || mask.len() == 0 {
        Seq::empty()
    } else {
        let rest = kept(nodes.drop_last(), mask.drop_last());
        if mask.last() {
            rest.push(nodes.last())
        } else {
            rest
        }
    }
}

pub proof fn lemma_rank_prefix(mask: Seq<bool>, j: int, k: int)
    requires
        0 <= j <= k <= mask.len(),
    ensures
        rank(mask.subrange(0, k), j) == rank(mask, j),
{
    assert(mask.subrange(0, k).subrange(0, j) == mask.subrange(0, j));
}

/// Ranks grow along the mask: an active node's rank exceeds the rank of every
/// active node before it.
pub proof fn lemma_rank_monotone(mask: Seq<bool>, k: int, j: int)
    requires
        0 <= k < j <= mask.len(),
        mask[k],
    ensures
        rank(mask, k) < rank(mask, j),
    decreases j - k,
{
    let pj = mask.subrange(0, j);
    if j == k + 1 {
        assert(pj.drop_last() == mask.subrange(0, k));
        assert(pj.last() == mask[k]);
    } else {
        lemma_rank_monotone(mask, k, j - 1);
        assert(pj.drop_last() == mask.subrange(0, j - 1));
    }
}

pub proof fn lemma_rank_bound(mask: Seq<bool>, j: int)
    requires
        0 <= j < mask.len(),
        mask[j],
    ensures
        rank(mask, j) < count_true(mask),
{
    if j + 1 < mask.len() {
        lemma_rank_monotone(mask, j, mask.len() as int);
    } else {
        assert(mask.drop_last() == mask.subrange(0, j));
    }
    assert(mask.subrange(0, mask.len() as int) == mask);
}

/// The kept sequence lists exactly the masked nodes, each at its rank.
pub proof fn lemma_kept<T>(nodes: Seq<T>, mask: Seq<bool>)
    requires
        nodes.len() == mask.len(),
    ensures
        kept(nodes, mask).len() == count_true(mask),
        forall|j: int|
            0 <= j < nodes.len() && mask[j] ==> #[trigger] rank(mask, j) < kept(nodes, mask).len() && kept(
                nodes,
                mask,
            )[rank(mask, j) as int] == nodes[j],
        forall|p: int| 0 <= p < kept(nodes, mask).len() ==> #[trigger] rank_taken(mask, p),
    decreases nodes.len(),
{
    if nodes.len() > 0 {
        let dn = nodes.drop_last();
        let dm = mask.drop_last();
        let n1 = nodes.len() - 1;
        lemma_kept(dn, dm);
        let rest = kept(dn, dm);
        assert(dm == mask.subrange(0, n1));
        assert forall|j: int| 0 <= j < n1 implies rank(dm, j) == rank(mask, j) by {
            lemma_rank_prefix(mask, j, n1);
        }
        let kn = kept(nodes, mask);
        assert(kn == if mask.last() { rest.push(nodes.last()) } else { rest });
        assert forall|j: int|
            0 <= j < nodes.len() && mask[j] implies #[trigger] rank(mask, j) < kept(nodes, mask).len() && kept(
            nodes,
            mask,
        )[rank(mask, j) as int] == nodes[j] by {
            if j < n1 {
                assert(dm[j] == mask[j]);
                assert(dn[j] == nodes[j]);
                lemma_rank_prefix(mask, j, n1);
                assert(rest[rank(dm, j) as int] == dn[j]);
            } else {
                assert(mask.subrange(0, j) == dm);
                assert(rank(mask, j) == count_true(dm));
            }
        }
        assert forall|p: int| 0 <= p < kept(nodes, mask).len() implies #[trigger] rank_taken(mask, p) by {
            if p < rest.len() {
                assert(rank_taken(dm, p));
                let j = choose|j: int| 0 <= j < dm.len() && dm[j] && #[trigger] rank(dm, j) == p;
                assert(mask[j] && rank(mask, j) == p);
            } else {
                assert(rank(mask, n1) == count_true(dm));
                assert(mask[n1] && rank(mask, n1) == p);
            }
        }
    }
}

/// Every entry of `mask` is set.
pub open spec fn all_set(mask: Seq<bool>) -> bool {
    forall|j: int| 0 <= j < mask.len() ==> #[trigger] mask[j]
}

/// In a mask with every entry set, each entry's rank is its index.
pub proof fn lemma_all_set_rank(mask: Seq<bool>, j: int)
    requires
        all_set(mask),
        0 <= j <= mask.len(),
    ensures
        rank(mask, j) == j,
    decreases j,
{
    if j > 0 {
        lemma_all_set_rank(mask, j - 1);
        assert(mask.subrange(0, j).drop_last() == mask.subrange(0, j - 1));
    }
}

/// Keeping every node keeps the sequence.
pub proof fn lemma_kept_all<T>(nodes: Seq<T>, mask: Seq<bool>)
    requires
        nodes.len() == mask.len(),
        all_set(mask),
    ensures
        kept(nodes, mask) == nodes,
    decreases nodes.len(),
{
    if nodes.len() > 0 {
        lemma_kept_all(nodes.drop_last(), mask.drop_last());
        assert(mask.last() == mask[mask.len() - 1]);
        assert(nodes.drop_last().push(nodes.last()) =~= nodes);
    } else {
        assert(nodes =~= Seq::<T>::empty());
    }
}

/// Some masked entry has rank `p`.
pub open spec fn rank_taken(mask: Seq<bool>, p: int) -> bool {
    exists|j: int| 0 <= j < mask.len() && mask[j] && #[trigger] rank(mask, j) == p
}

/// A node read by an active node is active.
pub proof fn lemma_active_closed(num_inputs: usize, edges: Seq<(usize, usize)>, out: usize, k: int, j: int)
    requires
        0 <= k < edges.len(),
        0 <= j < edges.len(),
        is_active(num_inputs, edges, out, k),
        reads_node(num_inputs, edges, k, j),
    ensures
        is_active(num_inputs, edges, out, j),
{
    assert forall|s: Set<int>| #[trigger] closed_under_reads(num_inputs, edges, out, s) implies s.contains(j) by {
        assert(s.contains(k));
    }
}

/// Marks the nodes the output depends on, by a depth-first walk from the
/// output node over the reads.
pub fn mark_active(ni: usize, edges: &Vec<(usize, usize)>, out: usize) -> (mask: Vec<bool>)
    ensures
        mask@ == active_mask(ni, edges@, out),
{
    let n = edges.len();
    let ghost nodes = edges@;
    let mut active: Vec<bool> = vec![false; n];
    let mut stack: Vec<usize> = Vec::new();
    proof {
        assert forall|j: int| 0 <= j < n implies !(#[trigger] active@[j]) by {
            assert(cloned(false, active@[j]));
        }
    }
    if out >= ni {
        let node_idx = out - ni;
        if node_idx < n {
            stack.push(node_idx);
            active.set(node_idx, true);
            proof {
                assert(stack@[0] == node_idx);
                assert(stack@.contains(node_idx));
                assert forall|s: Set<int>| #[trigger] closed_under_reads(ni, nodes, out, s) implies s.contains(
                    node_idx as int,
                ) by {}
            }
        }
    }
    proof {
        lemma_count_bound(active@);
    }
    loop
        invariant_except_break
            n == nodes.len(),
            nodes == edges@,
            active@.len() == n,
            forall|j: int| 0 <= j < n && #[trigger] active@[j] ==> is_active(ni, nodes, out, j),
            forall|q: int|
                0 <= q < stack@.len() ==> (#[trigger] stack@[q]) < n && active@[stack@[q] as int],
            forall|k: int, j: int|
                #![trigger active@[k], reads_node(ni, nodes, k, j)]
                0 <= k < n && 0 <= j < n && active@[k] && !stack@.contains(k as usize) && reads_node(
                    ni,
                    nodes,
                    k,
                    j,
                ) ==> active@[j],
            (out >= ni && out - ni < n) ==> active@[out - ni],
            count_true(active@) <= n,
        ensures
            active@.len() == n,
            forall|j: int| 0 <= j < n && #[trigger] active@[j] ==> is_active(ni, nodes, out, j),
            forall|k: int, j: int|
                #![trigger active@[k], reads_node(ni, nodes, k, j)]
                0 <= k < n && 0 <= j < n && active@[k] && reads_node(ni, nodes, k, j) ==> active@[j],
            (out >= ni && out - ni < n) ==> active@[out - ni],
        decreases stack@.len() + 2 * (n - count_true(active@)),
    {
        let ghost before = active@;
        let ghost stack_before = stack@;
        match stack.pop() {
            None => {
                assert(stack_before.len() == 0);
                break;
            },
            Some(idx) => {
                assert(stack_before.last() == idx);
                assert(stack@ == stack_before.drop_last());
                let node = edges[idx];
                proof {
                    assert(is_active(ni, nodes, out, idx as int));
                }
                if node.0 >= ni {
                    let j = node.0 - ni;
                    if j < n && !active[j] {
                        proof {
                            lemma_count_update(active@, j as int);
                            assert(reads_node(ni, nodes, idx as int, j as int));
                            assert forall|s: Set<int>|
                                #[trigger] closed_under_reads(ni, nodes, out, s) implies s.contains(
                                j as int,
                            ) by {
                                assert(s.contains(idx as int));
                            }
                        }
                        active.set(j, true);
                        stack.push(j);
                        assert(stack@[stack@.len() - 1] == j);
                    }
                }
                let ghost mid_active = active@;
                let ghost mid_stack = stack@;
                proof {
                    lemma_count_bound(active@);
                    assert(mid_stack.subrange(0, stack_before.len() - 1) == stack_before.drop_last());
                    assert forall|i: int| 0 <= i < n && mid_active[i] && !before[i] implies mid_stack.contains(
                        i as usize,
                    ) by {
                        assert(mid_stack[mid_stack.len() - 1] == i as usize);
                    }
                }
                if node.1 >= ni {
                    let j = node.1 - ni;
                    if j < n && !active[j] {
                        proof {
                            lemma_count_update(active@, j as int);
                            assert(reads_node(ni, nodes, idx as int, j as int));
                            assert forall|s: Set<int>|
                                #[trigger] closed_under_reads(ni, nodes, out, s) implies s.contains(
                                j as int,
                            ) by {
                                assert(s.contains(idx as int));
                            }
                        }
                        active.set(j, true);
                        stack.push(j);
                        assert(stack@[stack@.len() - 1] == j);
                    }
                }
                proof {
                    lemma_count_bound(active@);
                    assert(stack@.subrange(0, mid_stack.len() as int) == mid_stack);
                    assert(stack@.subrange(0, stack_before.len() - 1) == stack_before.drop_last());
                    assert forall|i: int| 0 <= i < n && active@[i] && !before[i] implies stack@.contains(
                        i as usize,
                    ) by {
                        if mid_active[i] {
                            let q = choose|q: int| 0 <= q < mid_stack.len() && mid_stack[q] == i as usize;
                            assert(stack@[q] == i as usize);
                        } else {
                            assert(stack@[stack@.len() - 1] == i as usize);
                        }
                    }
                    assert forall|k: int, j: int|
                        #![trigger active@[k], reads_node(ni, nodes, k, j)]
                        0 <= k < n && 0 <= j < n && active@[k] && !stack@.contains(k as usize)
                            && reads_node(ni, nodes, k, j) implies active@[j] by {
                        if k != idx as int {
                            assert(before[k]);
                            if stack_before.contains(k as usize) {
                                let q = choose|q: int|
                                    0 <= q < stack_before.len() && stack_before[q] == k as usize;
                                assert(q < stack_before.len() - 1);
                                assert(stack_before.drop_last()[q] == k as usize);
                                assert(stack@[q] == k as usize);
                                assert(false);
                            }
                            assert(before[j]);
                        }
                    }
                }
            },
        }
    }
    proof {
        let s = Set::new(|j: int| 0 <= j < n && active@[j]);
        assert(closed_under_reads(ni, nodes, out, s));
        assert forall|j: int| 0 <= j < n implies #[trigger] active@[j] == is_active(ni, nodes, out, j) by {
            if is_active(ni, nodes, out, j) {
                assert(s.contains(j));
            }
        }
        assert(active@ == active_mask(ni, edges@, out));
    }
    active
}


/// Number of `true` entries of `v`.
pub fn count_marked(v: &Vec<bool>) -> (r: usize)
    ensures
        r == count_true(v@),
{
    let mut c: usize = 0;
    let mut i: usize = 0;
    while i < v.len()
        invariant
            i <= v@.len(),
            c == count_true(v@.subrange(0, i as int)),
            c <= i,
        decreases v@.len() - i,
    {
        proof {
            let next = v@.subrange(0, i + 1);
            assert(next.drop_last() == v@.subrange(0, i as int));
            assert(next.last() == v@[i as int]);
        }
        if v[i] {
            c = c + 1;
        }
        i = i + 1;
    }
    assert(v@.subrange(0, v@.len() as int) == v@);
    c
}

} // verus!
