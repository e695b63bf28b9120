//! The island search for self-describing networks: a ring of independent
//! lineages of universal-gate genomes. Each generation every island scores
//! its parent and a few mutated children against the quine task and keeps
//! the first best; an island that has not improved for too long is reseeded.
use vstd::prelude::*;
use rand_chacha::ChaCha8Rng;
use crate::gate_universal::{lemma_small_wf_reads_ok, universal_genome_mutated_from, Genome};
use crate::tasks::{quine_error, quine_mismatches, quine_target};

verus! {

pub const ISLAND_INPUTS: usize = 11;
pub const ISLAND_NODES: usize = 50;
pub const CHILDREN_PER_PARENT: usize = 10;
/// Generations without improvement after which an island is reseeded.
pub const ISLAND_MAX_STAGNATION: usize = 50;

/// The quine score of a genome: its wrong answers and the length of its
/// description, or `(u32::MAX, 1)` for a genome with fewer than 20 active
/// nodes.
pub open spec fn quine_score_spec(g: Genome) -> (u32, usize) {
    if crate::dag::count_true(g.active_spec()) < 20 {
        (u32::MAX, 1usize)
    } else {
        (
            quine_mismatches(g, quine_target(g), quine_target(g).len() as int) as u32,
            quine_target(g).len() as usize,
        )
    }
}

/// Genomes the search works on: well formed, with value indices in 16 bits.
pub open spec fn island_genome(g: Genome) -> bool {
    &&& g.wf()
    &&& g.num_inputs == ISLAND_INPUTS
    &&& g.nodes@.len() == ISLAND_NODES
}

pub struct Islander {
    pub genome: Genome,
    pub fitness: u32,
    pub target_len: usize,
    pub stagnation: usize,
}

/// An island whose fitness is its genome's score.
pub open spec fn scored(ind: Islander) -> bool {
    &&& island_genome(ind.genome)
    &&& (ind.fitness, ind.target_len) == quine_score_spec(ind.genome)
}

/// Genomes with the same inputs, nodes and output answer alike.
proof fn lemma_same_mismatches(g1: Genome, g2: Genome, target: Seq<bool>, k: int)
    requires
        g1.num_inputs == g2.num_inputs,
        g1.nodes@ == g2.nodes@,
        g1.output_node == g2.output_node,
    ensures
        quine_mismatches(g1, target, k) == quine_mismatches(g2, target, k),
    decreases k,
{
    if k > 0 {
        lemma_same_mismatches(g1, g2, target, k - 1);
    }
}

/// Genomes with the same inputs, nodes and output score alike.
pub proof fn lemma_same_score(g1: Genome, g2: Genome)
    requires
        g1.num_inputs == g2.num_inputs,
        g1.nodes@ == g2.nodes@,
        g1.output_node == g2.output_node,
    ensures
        quine_score_spec(g1) == quine_score_spec(g2),
        island_genome(g1) == island_genome(g2),
{
    assert(g1.active_spec() == g2.active_spec());
    assert(quine_target(g1) == quine_target(g2));
    lemma_same_mismatches(g1, g2, quine_target(g1), quine_target(g1).len() as int);
}

/// The quine score of a genome of the search.
pub fn quine_score(g: &Genome) -> (r: (u32, usize))
    requires
        island_genome(*g),
    ensures
        r == quine_score_spec(*g),
{
    proof {
        lemma_small_wf_reads_ok(*g);
    }
    let r = quine_error(g);
    proof {
        if crate::dag::count_true(g.active_spec()) >= 20 {
            assert(r.0 == quine_mismatches(*g, quine_target(*g), quine_target(*g).len() as int));
        }
    }
    r
}

/// A copy of a genome.
pub fn copy_universal(g: &Genome) -> (r: Genome)
    ensures
        r.num_inputs == g.num_inputs,
        r.nodes@ == g.nodes@,
        r.output_node == g.output_node,
{
    let mut nodes = Vec::with_capacity(g.nodes.len());
    let mut i: usize = 0;
    while i < g.nodes.len()
        invariant
            i <= g.nodes@.len(),
            nodes@ == g.nodes@.take(i as int),
        decreases g.nodes@.len() - i,
    {
        nodes.push(g.nodes[i]);
        proof {
            assert(g.nodes@.take(i + 1) =~= g.nodes@.take(i as int).push(g.nodes@[i as int]));
        }
        i = i + 1;
    }
    proof {
        assert(nodes@ =~= g.nodes@);
    }
    Genome { num_inputs: g.num_inputs, nodes, output_node: g.output_node }
}

/// A fresh island: a random genome, scored, not stagnant.
pub fn new_island(rng: &mut ChaCha8Rng) -> (r: Islander)
    ensures
        scored(r),
        r.stagnation == 0,
{
    let genome = Genome::new_random(ISLAND_INPUTS, ISLAND_NODES, rng);
    let (fitness, target_len) = quine_score(&genome);
    Islander { genome, fitness, target_len, stagnation: 0 }
}

/// Candidate `i` wins its island: it scores below `u32::MAX`, no candidate
/// scores less, and every candidate before it scores more.
pub open spec fn first_least_score(candidates: Seq<Genome>, i: int) -> bool {
    &&& 0 <= i < candidates.len()
    &&& quine_score_spec(candidates[i]).0 < u32::MAX
    &&& forall|j: int|
        0 <= j < candidates.len() ==> quine_score_spec(candidates[i]).0 <= quine_score_spec(
            #[trigger] candidates[j],
        ).0
    &&& forall|j: int|
        0 <= j < i ==> quine_score_spec(candidates[i]).0 < quine_score_spec(#[trigger] candidates[j]).0
}

/// The selection on one island among its scored candidates (the parent's
/// copy first, then its children): the first candidate of least fitness
/// below `u32::MAX`, or none when every candidate scores `u32::MAX`; and the
/// island's new stagnation, 0 exactly when the winner beats the parent's
/// fitness, else one more than the parent's.
pub fn island_choice(parent: &Islander, candidates: &Vec<Genome>) -> (r: (Option<usize>, usize))
    requires
        parent.stagnation < usize::MAX,
        forall|j: int| 0 <= j < candidates@.len() ==> #[trigger] island_genome(candidates@[j]),
    ensures
        match r.0 {
            Some(i) => first_least_score(candidates@, i as int),
            None => forall|j: int|
                0 <= j < candidates@.len() ==> #[trigger] quine_score_spec(candidates@[j]).0 == u32::MAX,
        },
        r.1 == (if (match r.0 {
            Some(i) => quine_score_spec(candidates@[i as int]).0 < parent.fitness,
            None => false,
        }) {
            0
        } else {
            parent.stagnation + 1
        }),
{
    let mut best: Option<usize> = None;
    let mut best_fit: u32 = u32::MAX;
    let mut k: usize = 0;
    while k < candidates.len()
        invariant
            k <= candidates@.len(),
            forall|j: int| 0 <= j < candidates@.len() ==> #[trigger] island_genome(candidates@[j]),
            match best {
                Some(i) => {
                    &&& i < k
                    &&& best_fit == quine_score_spec(candidates@[i as int]).0
                    &&& best_fit < u32::MAX
                    &&& forall|j: int| 0 <= j < k ==> best_fit <= quine_score_spec(#[trigger] candidates@[j]).0
                    &&& forall|j: int| 0 <= j < i ==> best_fit < quine_score_spec(#[trigger] candidates@[j]).0
                },
                None => {
                    &&& best_fit == u32::MAX
                    &&& forall|j: int| 0 <= j < k ==> #[trigger] quine_score_spec(candidates@[j]).0 == u32::MAX
                },
            },
        decreases candidates@.len() - k,
    {
        proof {
            assert(island_genome(candidates@[k as int]));
        }
        let (fit, _len) = quine_score(&candidates[k]);
        if fit < best_fit {
            best = Some(k);
            best_fit = fit;
        }
        k = k + 1;
    }
    let stagnation = if best_fit < parent.fitness { 0 } else { parent.stagnation + 1 };
    (best, stagnation)
}

/// One generation of every island. On island `p` a copy of the parent and
/// then `CHILDREN_PER_PARENT` mutated children are drawn, and `island_choice`
/// picks the first one with the least fitness below `u32::MAX`; when every candidate
/// scores `u32::MAX` the island takes the last winner chosen so far (island
/// 0's parent when there is none). The winner's stagnation restarts when a
/// candidate beat the parent's fitness, else grows by one; an island that
/// stagnated for more than `ISLAND_MAX_STAGNATION` generations is reseeded.
/// Returns the islands and which of them were reseeded.
pub fn island_generation(islands: &Vec<Islander>, rng: &mut ChaCha8Rng) -> (r: (Vec<Islander>, Vec<bool>))
    requires
        islands@.len() > 0,
        forall|p: int| 0 <= p < islands@.len() ==> #[trigger] scored(islands@[p]),
        forall|p: int| 0 <= p < islands@.len() ==> #[trigger] islands@[p].stagnation < usize::MAX,
    ensures
        r.0@.len() == islands@.len(),
        r.1@.len() == islands@.len(),
        forall|p: int| 0 <= p < islands@.len() ==> #[trigger] scored(r.0@[p]),
        forall|p: int|
            0 <= p < islands@.len() && #[trigger] r.1@[p] ==> islands@[p].stagnation + 1 > ISLAND_MAX_STAGNATION
                && r.0@[p].stagnation == 0,
        forall|p: int|
            0 <= p < islands@.len() && !#[trigger] r.1@[p] ==> {
                let old = islands@[p];
                let new = r.0@[p];
                &&& new.stagnation == 0 || new.stagnation == old.stagnation + 1
                &&& new.stagnation <= ISLAND_MAX_STAGNATION
                &&& old.fitness < u32::MAX ==> new.fitness <= old.fitness
                &&& old.fitness < u32::MAX ==> (new.fitness < old.fitness <==> new.stagnation == 0)
                &&& old.fitness < u32::MAX ==> universal_genome_mutated_from(old.genome, new.genome)
                &&& exists|q: int|
                    0 <= q <= p && #[trigger] universal_genome_mutated_from(islands@[q].genome, new.genome)
            },
{
    let n = islands.len();
    let mut result: Vec<Islander> = Vec::with_capacity(n);
    let mut reseeded: Vec<bool> = Vec::with_capacity(n);
    // The last candidate chosen on any island (island 0's parent at first).
    let mut carry_genome = copy_universal(&islands[0].genome);
    let mut carry_fitness = islands[0].fitness;
    let mut carry_len = islands[0].target_len;
    let ghost mut carry_src: int = 0;
    let ghost mut sources: Seq<int> = Seq::empty();
    proof {
        assert(scored(islands@[0]));
        lemma_same_score(carry_genome, islands@[0].genome);
    }
    let mut p: usize = 0;
    while p < n
        invariant
            n == islands@.len(),
            p <= n,
            forall|q: int| 0 <= q < islands@.len() ==> #[trigger] scored(islands@[q]),
            forall|q: int| 0 <= q < islands@.len() ==> #[trigger] islands@[q].stagnation < usize::MAX,
            island_genome(carry_genome),
            (carry_fitness, carry_len) == quine_score_spec(carry_genome),
            0 <= carry_src < n,
            carry_src <= p,
            universal_genome_mutated_from(islands@[carry_src].genome, carry_genome),
            result@.len() == p,
            reseeded@.len() == p,
            forall|q: int| 0 <= q < p ==> #[trigger] scored(result@[q]),
            forall|q: int|
                0 <= q < p && #[trigger] reseeded@[q] ==> islands@[q].stagnation + 1 > ISLAND_MAX_STAGNATION
                    && result@[q].stagnation == 0,
            forall|q: int|
                0 <= q < p && !#[trigger] reseeded@[q] ==> {
                    let old = islands@[q];
                    let new = result@[q];
                    &&& new.stagnation == 0 || new.stagnation == old.stagnation + 1
                    &&& new.stagnation <= ISLAND_MAX_STAGNATION
                    &&& old.fitness < u32::MAX ==> new.fitness <= old.fitness
                    &&& old.fitness < u32::MAX ==> (new.fitness < old.fitness <==> new.stagnation == 0)
                    &&& old.fitness < u32::MAX ==> universal_genome_mutated_from(old.genome, new.genome)
                    &&& 0 <= sources[q] <= q
                    &&& universal_genome_mutated_from(islands@[sources[q]].genome, new.genome)
                },
            sources.len() == p,
        decreases n - p,
    {
        let parent = &islands[p];
        let rate: u32 = if parent.stagnation > 20 { 100 } else { 20 };
        let mut candidates: Vec<Genome> = Vec::with_capacity(CHILDREN_PER_PARENT + 1);
        let mut k: usize = 0;
        while k <= CHILDREN_PER_PARENT
            invariant
                k <= CHILDREN_PER_PARENT + 1,
                *parent == islands@[p as int],
                scored(*parent),
                rate <= 1000,
                candidates@.len() == k,
                forall|j: int| 0 <= j < k ==> #[trigger] island_genome(candidates@[j]),
                k > 0 ==> quine_score_spec(candidates@[0]) == (parent.fitness, parent.target_len),
                forall|j: int| 0 <= j < k ==> #[trigger] universal_genome_mutated_from(parent.genome, candidates@[j]),
            decreases CHILDREN_PER_PARENT + 1 - k,
        {
            let mut candidate = copy_universal(&parent.genome);
            proof {
                lemma_same_score(candidate, parent.genome);
            }
            if k > 0 {
                candidate.mutate(rate, 1000, rng);
            }
            candidates.push(candidate);
            proof {
                assert(island_genome(candidates@[k as int]));
            }
            k = k + 1;
        }
        let (choice, stagnation) = island_choice(parent, &candidates);
        let ghost drawn = candidates@;
        proof {
            assert(island_genome(candidates@[0]));
        }
        match choice {
            Some(i) => {
                let (fit, len) = quine_score(&candidates[i]);
                proof {
                    assert(universal_genome_mutated_from(parent.genome, candidates@[i as int]));
                }
                carry_genome = candidates.remove(i);
                carry_fitness = fit;
                carry_len = len;
                proof {
                    carry_src = p as int;
                }
            },
            None => {},
        }

        if stagnation > ISLAND_MAX_STAGNATION {
            result.push(new_island(rng));
            reseeded.push(true);
            proof {
                sources = sources.push(p as int);
            }
        } else {
            let kept = copy_universal(&carry_genome);
            proof {
                lemma_same_score(kept, carry_genome);
                if parent.fitness < u32::MAX {
                    assert(quine_score_spec(drawn[0]).0 < u32::MAX);
                    assert(choice is Some);
                    assert(carry_src == p);
                }
                assert(universal_genome_mutated_from(islands@[carry_src].genome, kept));
            }
            result.push(
                Islander {
                    genome: kept,
                    fitness: carry_fitness,
                    target_len: carry_len,
                    stagnation,
                },
            );
            reseeded.push(false);
            proof {
                let new = result@[p as int];
                assert(new.genome == kept);
                assert(universal_genome_mutated_from(islands@[carry_src].genome, new.genome));
                assert(islands@[p as int].fitness < u32::MAX ==> universal_genome_mutated_from(
                    islands@[p as int].genome,
                    new.genome,
                ));
                assert(!reseeded@[p as int]);
                sources = sources.push(carry_src);
            }
        }
        p = p + 1;
    }
    proof {
        assert forall|q: int| 0 <= q < islands@.len() && !#[trigger] reseeded@[q] implies exists|r: int|
            0 <= r <= q && #[trigger] universal_genome_mutated_from(islands@[r].genome, result@[q].genome) by {
            assert(universal_genome_mutated_from(islands@[sources[q]].genome, result@[q].genome));
        }
    }
    (result, reseeded)
}

/// The island with the least fitness (the first one on a tie).
pub fn best_island(islands: &Vec<Islander>) -> (r: usize)
    requires
        islands@.len() > 0,
    ensures
        r < islands@.len(),
        forall|p: int| 0 <= p < islands@.len() ==> islands@[r as int].fitness <= #[trigger] islands@[p].fitness,
        forall|p: int| 0 <= p < r ==> islands@[r as int].fitness < #[trigger] islands@[p].fitness,
{
    let mut best: usize = 0;
    let mut i: usize = 1;
    while i < islands.len()
        invariant
            1 <= i <= islands@.len(),
            best < i,
            forall|p: int| 0 <= p < i ==> islands@[best as int].fitness <= #[trigger] islands@[p].fitness,
            forall|p: int| 0 <= p < best ==> islands@[best as int].fitness < #[trigger] islands@[p].fitness,
        decreases islands@.len() - i,
    {
        if islands[i].fitness < islands[best].fitness {
            best = i;
        }
        i = i + 1;
    }
    best
}

} // verus!
