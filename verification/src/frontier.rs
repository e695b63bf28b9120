//! The frontier of the image-evolution search: a small set of lineages with
//! distinct fitness `(error, active nodes)`, compared lexicographically
//! (fewer errors first, then fewer nodes). Each epoch every lineage breeds,
//! children inherit their parent's staleness unless they improve on it,
//! stale lineages are pruned, and the best distinct fitness values form the
//! next frontier.
use vstd::prelude::*;
use rand_chacha::ChaCha8Rng;
use crate::random::random_u32_below;
use crate::gate::{Genome, genome_mutated_from};

verus! {

/// Lineages kept in the frontier.
pub const FRONTIER_SIZE: usize = 64;
/// Epochs a lineage may go without improving before it is pruned.
pub const MAX_STAGNATION: usize = 20;
/// Epochs without a better error after which everything is reseeded.
pub const ASTEROID_EPOCHS: usize = 30;

/// `a` is better than `b`: fewer errors, or as many with fewer nodes.
pub open spec fn fit_lt(a: (u64, u64), b: (u64, u64)) -> bool {
    a.0 < b.0 || (a.0 == b.0 && a.1 < b.1)
}

pub fn fitness_less(a: (u64, u64), b: (u64, u64)) -> (r: bool)
    ensures
        r == fit_lt(a, b),
{
    a.0 < b.0 || (a.0 == b.0 && a.1 < b.1)
}

/// The epoch a child last improved: this epoch when it beats its parent,
/// else its parent's.
pub fn inherit_staleness(fitness: (u64, u64), parent_fitness: (u64, u64), parent_last_improved: usize, epoch: usize) -> (r: usize)
    ensures
        r == if fit_lt(fitness, parent_fitness) { epoch } else { parent_last_improved },
{
    if fitness_less(fitness, parent_fitness) {
        epoch
    } else {
        parent_last_improved
    }
}

/// A candidate is stale when it has not improved for more than
/// `MAX_STAGNATION` epochs.
pub open spec fn is_stale(last: usize, epoch: usize) -> bool {
    epoch - last > MAX_STAGNATION
}

/// Candidate `j` is kept and comes first among the kept candidates with its
/// fitness.
pub open spec fn first_of_its_fitness(fits: Seq<(u64, u64)>, lasts: Seq<usize>, epoch: usize, j: int) -> bool {
    &&& !is_stale(lasts[j], epoch)
    &&& forall|i: int| 0 <= i < j && !is_stale(lasts[i], epoch) ==> #[trigger] fits[i] != fits[j]
}

/// Candidate `q` is kept and better than the last choice in `sel`.
pub open spec fn candidate_above(fits: Seq<(u64, u64)>, lasts: Seq<usize>, epoch: usize, sel: Seq<usize>, q: int) -> bool {
    &&& !is_stale(lasts[q], epoch)
    &&& (sel.len() > 0 ==> fit_lt(fits[sel.last() as int], fits[q]))
}

/// Candidate `best` is at least as good as `q`, and comes first on a tie.
pub open spec fn best_covers(fits: Seq<(u64, u64)>, best: int, q: int) -> bool {
    q == best || fit_lt(fits[best], fits[q]) || (fits[q] == fits[best] && best < q)
}

/// What the selection promises of the chosen indices `sel`.
pub open spec fn is_frontier(fits: Seq<(u64, u64)>, lasts: Seq<usize>, epoch: usize, sel: Seq<usize>) -> bool {
    &&& sel.len() <= FRONTIER_SIZE
    &&& forall|t: int| 0 <= t < sel.len() ==> #[trigger] sel[t] < fits.len()
    &&& forall|t: int| 0 <= t < sel.len() ==> first_of_its_fitness(fits, lasts, epoch, #[trigger] sel[t] as int)
    &&& forall|s: int, t: int| 0 <= s < t < sel.len() ==> fit_lt(#[trigger] fits[sel[s] as int], #[trigger] fits[sel[t] as int])
    &&& forall|j: int|
        0 <= j < fits.len() && !is_stale(lasts[j], epoch) ==> (exists|t: int|
            0 <= t < sel.len() && #[trigger] fits[sel[t] as int] == fits[j]) || (sel.len() == FRONTIER_SIZE
            && forall|t: int| 0 <= t < sel.len() ==> fit_lt(#[trigger] fits[sel[t] as int], fits[j]))
}

/// Elitism: when any candidate is kept, the frontier is not empty and its
/// first lineage is at least as good as every kept candidate.
pub proof fn lemma_frontier_keeps_best(
    fits: Seq<(u64, u64)>,
    lasts: Seq<usize>,
    epoch: usize,
    sel: Seq<usize>,
    j: int,
)
    requires
        is_frontier(fits, lasts, epoch, sel),
        0 <= j < fits.len(),
        !is_stale(lasts[j], epoch),
    ensures
        sel.len() > 0,
        fit_le(fits[sel[0] as int], fits[j]),
{
    if exists|t: int| 0 <= t < sel.len() && #[trigger] fits[sel[t] as int] == fits[j] {
        let t = choose|t: int| 0 <= t < sel.len() && #[trigger] fits[sel[t] as int] == fits[j];
        if t > 0 {
            assert(fit_lt(fits[sel[0] as int], fits[sel[t] as int]));
        }
    } else {
        assert(fit_lt(fits[sel[0] as int], fits[j]));
    }
}

/// The next frontier among `fits.len()` candidates: the kept (not stale)
/// candidates in order of fitness, one per fitness value (the first one),
/// at most `FRONTIER_SIZE` of them. Returns candidate indices.
pub fn select_frontier(fits: &Vec<(u64, u64)>, lasts: &Vec<usize>, epoch: usize) -> (sel: Vec<usize>)
    requires
        fits@.len() == lasts@.len(),
        forall|j: int| 0 <= j < lasts@.len() ==> #[trigger] lasts@[j] <= epoch,
    ensures
        is_frontier(fits@, lasts@, epoch, sel@),
{
    let n = fits.len();
    let mut sel: Vec<usize> = Vec::new();
    let mut done = false;
    while sel.len() < FRONTIER_SIZE && !done
        invariant
            n == fits@.len(),
            fits@.len() == lasts@.len(),
            forall|j: int| 0 <= j < lasts@.len() ==> #[trigger] lasts@[j] <= epoch,
            sel@.len() <= FRONTIER_SIZE,
            forall|t: int| 0 <= t < sel@.len() ==> #[trigger] sel@[t] < n,
            forall|t: int| 0 <= t < sel@.len() ==> first_of_its_fitness(fits@, lasts@, epoch, #[trigger] sel@[t] as int),
            forall|s: int, t: int|
                0 <= s < t < sel@.len() ==> fit_lt(#[trigger] fits@[sel@[s] as int], #[trigger] fits@[sel@[t] as int]),
            // Every kept candidate not above the last choice is represented.
            forall|j: int|
                0 <= j < n && !is_stale(lasts@[j], epoch) && (sel@.len() > 0 ==> !fit_lt(
                    fits@[sel@.last() as int],
                    fits@[j],
                )) && sel@.len() > 0 ==> exists|t: int| 0 <= t < sel@.len() && #[trigger] fits@[sel@[t] as int] == fits@[j],
            done ==> forall|j: int|
                0 <= j < n && !is_stale(lasts@[j], epoch) ==> exists|t: int|
                    0 <= t < sel@.len() && #[trigger] fits@[sel@[t] as int] == fits@[j],
        decreases FRONTIER_SIZE - sel@.len(), if done { 0int } else { 1int },
    {
        // The first kept candidate with the least fitness above the last choice.
        let mut best: usize = n;
        let mut j: usize = 0;
        while j < n
            invariant
                n == fits@.len(),
                fits@.len() == lasts@.len(),
                forall|q: int| 0 <= q < lasts@.len() ==> #[trigger] lasts@[q] <= epoch,
                j <= n,
                sel@.len() <= FRONTIER_SIZE,
                forall|t: int| 0 <= t < sel@.len() ==> #[trigger] sel@[t] < n,
                best == n || best < j,
                best < n ==> !is_stale(lasts@[best as int], epoch) && (sel@.len() > 0 ==> fit_lt(
                    fits@[sel@.last() as int],
                    fits@[best as int],
                )),
                forall|q: int|
                    0 <= q < j && #[trigger] candidate_above(fits@, lasts@, epoch, sel@, q) ==> best < n
                        && best_covers(fits@, best as int, q),
            decreases n - j,
        {
            let fj = fits[j];
            let kept = epoch - lasts[j] <= MAX_STAGNATION;
            let above = if sel.len() == 0 {
                true
            } else {
                fitness_less(fits[sel[sel.len() - 1]], fj)
            };
            let ghost old_best = best;
            if kept && above {
                if best == n || fitness_less(fj, fits[best]) {
                    best = j;
                }
            }
            proof {
                assert(candidate_above(fits@, lasts@, epoch, sel@, j as int) == (kept && above));
                assert forall|q: int|
                    0 <= q < j + 1 && #[trigger] candidate_above(fits@, lasts@, epoch, sel@, q) implies best < n
                        && best_covers(fits@, best as int, q) by {
                    if q < j {
                        assert(old_best < n && best_covers(fits@, old_best as int, q));
                    }
                }
            }
            j = j + 1;
        }
        if best == n {
            done = true;
            proof {
                assert forall|q: int| 0 <= q < n && !is_stale(lasts@[q], epoch) implies exists|t: int|
                    0 <= t < sel@.len() && #[trigger] fits@[sel@[t] as int] == fits@[q] by {
                    assert(!candidate_above(fits@, lasts@, epoch, sel@, q));
                    if sel@.len() > 0 {
                        assert(!fit_lt(fits@[sel@.last() as int], fits@[q]));
                    }
                }
            }
        } else {
            let ghost old_sel = sel@;
            sel.push(best);
            proof {
                let b = best as int;
                // The choice is the first of its fitness.
                assert forall|i: int| 0 <= i < b && !is_stale(lasts@[i], epoch) implies #[trigger] fits@[i] != fits@[b] by {
                    if fits@[i] == fits@[b] {
                        assert(candidate_above(fits@, lasts@, epoch, old_sel, i));
                        assert(best_covers(fits@, b, i));
                    }
                }
                assert(first_of_its_fitness(fits@, lasts@, epoch, b));
                // Increasing fitness.
                assert forall|s: int, t: int|
                    0 <= s < t < sel@.len() implies fit_lt(#[trigger] fits@[sel@[s] as int], #[trigger] fits@[sel@[t] as int]) by {
                    if t == sel@.len() - 1 && s < t {
                        assert(fit_lt(fits@[old_sel[s] as int], fits@[old_sel.last() as int]) || s == old_sel.len() - 1);
                    }
                }
                // Coverage up to the new choice.
                assert forall|q: int|
                    0 <= q < n && !is_stale(lasts@[q], epoch) && !fit_lt(fits@[sel@.last() as int], fits@[q])
                    implies exists|t: int| 0 <= t < sel@.len() && #[trigger] fits@[sel@[t] as int] == fits@[q] by {
                    if old_sel.len() > 0 && fit_lt(fits@[old_sel.last() as int], fits@[q]) {
                        assert(candidate_above(fits@, lasts@, epoch, old_sel, q));
                        assert(best_covers(fits@, b, q));
                        assert(fits@[q] == fits@[b]);
                        assert(fits@[sel@[sel@.len() - 1] as int] == fits@[q]);
                    } else if old_sel.len() == 0 {
                        assert(candidate_above(fits@, lasts@, epoch, old_sel, q));
                        assert(best_covers(fits@, b, q));
                        assert(fits@[q] == fits@[b]);
                        assert(fits@[sel@[sel@.len() - 1] as int] == fits@[q]);
                    } else {
                        let w = choose|t: int| 0 <= t < old_sel.len() && #[trigger] fits@[old_sel[t] as int] == fits@[q];
                        assert(fits@[sel@[w] as int] == fits@[q]);
                    }
                }
            }
        }
    }
    proof {
        if !done {
            assert(sel@.len() == FRONTIER_SIZE);
            assert forall|q: int| 0 <= q < n && !is_stale(lasts@[q], epoch) implies (exists|t: int|
                0 <= t < sel@.len() && #[trigger] fits@[sel@[t] as int] == fits@[q]) || forall|t: int|
                0 <= t < sel@.len() ==> fit_lt(#[trigger] fits@[sel@[t] as int], fits@[q]) by {
                if fit_lt(fits@[sel@.last() as int], fits@[q]) {
                    assert forall|t: int| 0 <= t < sel@.len() implies fit_lt(#[trigger] fits@[sel@[t] as int], fits@[q]) by {
                        if t < sel@.len() - 1 {
                            assert(fit_lt(fits@[sel@[t] as int], fits@[sel@[sel@.len() - 1] as int]));
                        }
                    }
                }
            }
        }
    }
    sel
}

/// Mutation rate, in thousandths, of a child whose parent has gone
/// `stagnation` epochs without improving, for a roll in `0..1000`: the
/// longer the stagnation, the heavier the mutations.
pub open spec fn rate_for_roll(stagnation: usize, roll: u32) -> u32 {
    if stagnation < 3 {
        if roll < 600 { 1 } else if roll < 900 { 5 } else { 20 }
    } else if stagnation < 7 {
        if roll < 300 { 1 } else if roll < 700 { 5 } else { 20 }
    } else if stagnation < 12 {
        if roll < 200 { 5 } else if roll < 600 { 20 } else { 50 }
    } else {
        if roll < 300 { 20 } else if roll < 700 { 50 } else { 250 }
    }
}

pub fn mutation_rate_for_roll(stagnation: usize, roll: u32) -> (r: u32)
    ensures
        r == rate_for_roll(stagnation, roll),
{
    if stagnation < 3 {
        if roll < 600 { 1 } else if roll < 900 { 5 } else { 20 }
    } else if stagnation < 7 {
        if roll < 300 { 1 } else if roll < 700 { 5 } else { 20 }
    } else if stagnation < 12 {
        if roll < 200 { 5 } else if roll < 600 { 20 } else { 50 }
    } else {
        if roll < 300 { 20 } else if roll < 700 { 50 } else { 250 }
    }
}

/// A mutation rate in thousandths drawn for a parent's stagnation.
pub fn draw_mutation_rate(stagnation: usize, rng: &mut ChaCha8Rng) -> (r: u32)
    ensures
        exists|roll: u32| roll < 1000 && r == rate_for_roll(stagnation, roll),
        r <= 250,
{
    let roll = random_u32_below(rng, 1000);
    mutation_rate_for_roll(stagnation, roll)
}

/// A lineage of the frontier.
pub struct Individual {
    pub genome: Genome,
    pub fitness: (u64, u64),
    /// The last epoch at which the lineage improved.
    pub last_improved_epoch: usize,
}

pub open spec fn fitness_of(c: Seq<Individual>) -> Seq<(u64, u64)> {
    Seq::new(c.len(), |i: int| c[i].fitness)
}

pub open spec fn last_of(c: Seq<Individual>) -> Seq<usize> {
    Seq::new(c.len(), |i: int| c[i].last_improved_epoch)
}

/// A copy of a genome.
pub fn copy_genome(g: &Genome) -> (r: Genome)
    ensures
        r.num_inputs == g.num_inputs,
        r.nodes@ == g.nodes@,
        r.output_node_idx == g.output_node_idx,
{
    let mut nodes = Vec::with_capacity(g.nodes.len());
    let mut i: usize = 0;
    while i < g.nodes.len()
        invariant
            i <= g.nodes@.len(),
            nodes@ == g.nodes@.take(i as int),
        decreases g.nodes@.len() - i,
    {
        nodes.push(g.nodes[i]);
        proof {
            assert(g.nodes@.take(i + 1) =~= g.nodes@.take(i as int).push(g.nodes@[i as int]));
        }
        i = i + 1;
    }
    proof {
        assert(nodes@ =~= g.nodes@);
    }
    Genome { num_inputs: g.num_inputs, nodes, output_node_idx: g.output_node_idx }
}

/// `a` is no worse than `b`: `a <= b` in the fitness order.
pub open spec fn fit_le(a: (u64, u64), b: (u64, u64)) -> bool {
    !fit_lt(b, a)
}

/// The next frontier: copies of the selected candidates (see
/// `select_frontier`), in order of fitness, then fresh random lineages of
/// the worst fitness `(u64::MAX, u64::MAX)` that improved this epoch, up to
/// `FRONTIER_SIZE` lineages. Returns the frontier and the selected indices.
pub fn next_frontier(
    candidates: &Vec<Individual>,
    epoch: usize,
    num_inputs: usize,
    num_nodes: usize,
    rng: &mut ChaCha8Rng,
) -> (r: (Vec<Individual>, Vec<usize>))
    requires
        forall|j: int| 0 <= j < candidates@.len() ==> #[trigger] candidates@[j].last_improved_epoch <= epoch,
        num_inputs > 0,
        num_inputs + num_nodes <= usize::MAX,
    ensures
        is_frontier(fitness_of(candidates@), last_of(candidates@), epoch, r.1@),
        r.0@.len() == FRONTIER_SIZE,
        forall|t: int|
            0 <= t < r.1@.len() ==> {
                let c = #[trigger] candidates@[r.1@[t] as int];
                &&& r.0@[t].fitness == c.fitness
                &&& r.0@[t].last_improved_epoch == c.last_improved_epoch
                &&& r.0@[t].genome.num_inputs == c.genome.num_inputs
                &&& r.0@[t].genome.nodes@ == c.genome.nodes@
                &&& r.0@[t].genome.output_node_idx == c.genome.output_node_idx
            },
        forall|t: int|
            r.1@.len() <= t < FRONTIER_SIZE ==> {
                &&& (#[trigger] r.0@[t]).fitness == (u64::MAX, u64::MAX)
                &&& r.0@[t].last_improved_epoch == epoch
                &&& r.0@[t].genome.num_inputs == num_inputs
                &&& r.0@[t].genome.nodes@.len() == num_nodes
                &&& r.0@[t].genome.wf()
            },
        forall|s: int, t: int|
            0 <= s < t < FRONTIER_SIZE ==> fit_le(#[trigger] r.0@[s].fitness, #[trigger] r.0@[t].fitness),
{
    let mut fits: Vec<(u64, u64)> = Vec::with_capacity(candidates.len());
    let mut lasts: Vec<usize> = Vec::with_capacity(candidates.len());
    let mut i: usize = 0;
    while i < candidates.len()
        invariant
            i <= candidates@.len(),
            fits@ == fitness_of(candidates@).take(i as int),
            lasts@ == last_of(candidates@).take(i as int),
        decreases candidates@.len() - i,
    {
        fits.push(candidates[i].fitness);
        lasts.push(candidates[i].last_improved_epoch);
        proof {
            assert(fits@ =~= fitness_of(candidates@).take(i + 1));
            assert(lasts@ =~= last_of(candidates@).take(i + 1));
        }
        i = i + 1;
    }
    proof {
        assert(fits@ =~= fitness_of(candidates@));
        assert(lasts@ =~= last_of(candidates@));
    }
    let sel = select_frontier(&fits, &lasts, epoch);
    let mut frontier: Vec<Individual> = Vec::with_capacity(FRONTIER_SIZE);
    let mut t: usize = 0;
    while t < sel.len()
        invariant
            t <= sel@.len(),
            fits@ == fitness_of(candidates@),
            is_frontier(fits@, lasts@, epoch, sel@),
            frontier@.len() == t,
            forall|q: int|
                0 <= q < t ==> {
                    let c = #[trigger] candidates@[sel@[q] as int];
                    &&& frontier@[q].fitness == c.fitness
                    &&& frontier@[q].last_improved_epoch == c.last_improved_epoch
                    &&& frontier@[q].genome.num_inputs == c.genome.num_inputs
                    &&& frontier@[q].genome.nodes@ == c.genome.nodes@
                    &&& frontier@[q].genome.output_node_idx == c.genome.output_node_idx
                },
        decreases sel@.len() - t,
    {
        let k = sel[t];
        assert(k < candidates@.len());
        let c = &candidates[k];
        frontier.push(Individual { genome: copy_genome(&c.genome), fitness: c.fitness, last_improved_epoch: c.last_improved_epoch });
        proof {
            assert(candidates@[sel@[t as int] as int] == *c);
        }
        t = t + 1;
    }
    while frontier.len() < FRONTIER_SIZE
        invariant
            num_inputs > 0,
            num_inputs + num_nodes <= usize::MAX,
            fits@ == fitness_of(candidates@),
            is_frontier(fits@, lasts@, epoch, sel@),
            sel@.len() <= frontier@.len() <= FRONTIER_SIZE,
            forall|q: int|
                0 <= q < sel@.len() ==> {
                    let c = #[trigger] candidates@[sel@[q] as int];
                    &&& frontier@[q].fitness == c.fitness
                    &&& frontier@[q].last_improved_epoch == c.last_improved_epoch
                    &&& frontier@[q].genome.num_inputs == c.genome.num_inputs
                    &&& frontier@[q].genome.nodes@ == c.genome.nodes@
                    &&& frontier@[q].genome.output_node_idx == c.genome.output_node_idx
                },
            forall|q: int|
                sel@.len() <= q < frontier@.len() ==> {
                    &&& (#[trigger] frontier@[q]).fitness == (u64::MAX, u64::MAX)
                    &&& frontier@[q].last_improved_epoch == epoch
                    &&& frontier@[q].genome.num_inputs == num_inputs
                    &&& frontier@[q].genome.nodes@.len() == num_nodes
                    &&& frontier@[q].genome.wf()
                },
        decreases FRONTIER_SIZE - frontier@.len(),
    {
        let g = Genome::new_random(num_inputs, num_nodes, rng);
        frontier.push(Individual { genome: g, fitness: (u64::MAX, u64::MAX), last_improved_epoch: epoch });
    }
    proof {
        assert forall|s: int, t: int| 0 <= s < t < FRONTIER_SIZE implies fit_le(
            #[trigger] frontier@[s].fitness,
            #[trigger] frontier@[t].fitness,
        ) by {
            if t < sel@.len() {
                assert(fit_lt(fits@[sel@[s] as int], fits@[sel@[t] as int]));
            }
        }
    }
    (frontier, sel)
}

/// The best lineage ever seen and the epochs since its error last dropped.
pub struct GlobalBest {
    pub fitness: (u64, u64),
    pub epochs_since_improvement: usize,
}

impl GlobalBest {
    /// Takes the frontier's best fitness into account: a better one becomes
    /// the global best, and the stagnation count restarts only when the
    /// error itself dropped.
    pub fn update(&mut self, frontier_best: (u64, u64))
        requires
            old(self).epochs_since_improvement < usize::MAX,
        ensures
            fit_lt(frontier_best, old(self).fitness) ==> final(self).fitness == frontier_best,
            !fit_lt(frontier_best, old(self).fitness) ==> final(self).fitness == old(self).fitness,
            final(self).epochs_since_improvement == if frontier_best.0 < old(self).fitness.0 {
                0
            } else {
                old(self).epochs_since_improvement + 1
            },
            fit_le(final(self).fitness, old(self).fitness),
    {
        if fitness_less(frontier_best, self.fitness) {
            if frontier_best.0 < self.fitness.0 {
                self.epochs_since_improvement = 0;
            } else {
                self.epochs_since_improvement = self.epochs_since_improvement + 1;
            }
            self.fitness = frontier_best;
        } else {
            self.epochs_since_improvement = self.epochs_since_improvement + 1;
        }
    }

    /// Whether the search has stagnated long enough to reseed everything.
    pub fn asteroid_due(&self) -> (r: bool)
        ensures
            r == (self.epochs_since_improvement > ASTEROID_EPOCHS),
    {
        self.epochs_since_improvement > ASTEROID_EPOCHS
    }
}

/// The children of one epoch: the parents themselves first, then
/// `population / frontier.len()` mutated copies of each parent in turn,
/// each mutated at a rate drawn for its parent's stagnation. Returns the
/// genomes and, for each, the index of its parent in the frontier.
pub fn breed(frontier: &Vec<Individual>, epoch: usize, population: usize, rng: &mut ChaCha8Rng) -> (r: (
    Vec<Genome>,
    Vec<usize>,
))
    requires
        frontier@.len() > 0,
        forall|p: int|
            0 <= p < frontier@.len() ==> {
                let g = (#[trigger] frontier@[p]).genome;
                &&& g.num_inputs > 0
                &&& g.num_inputs + g.nodes@.len() <= usize::MAX
                &&& frontier@[p].last_improved_epoch <= epoch
            },
    ensures
        ({
            let f = frontier@.len() as int;
            let per = population as int / f;
            &&& r.0@.len() == r.1@.len()
            &&& r.0@.len() == f + f * per
            &&& forall|i: int| 0 <= i < f ==> #[trigger] r.1@[i] == i
            &&& forall|i: int| f <= i < r.0@.len() ==> #[trigger] r.1@[i] == (i - f) / per
            &&& forall|i: int| 0 <= i < r.0@.len() ==> #[trigger] r.1@[i] < f
        }),
        forall|i: int|
            0 <= i < frontier@.len() ==> {
                let g = (#[trigger] r.0@[i]);
                let pg = frontier@[i].genome;
                &&& g.num_inputs == pg.num_inputs
                &&& g.nodes@ == pg.nodes@
                &&& g.output_node_idx == pg.output_node_idx
            },
        forall|i: int|
            0 <= i < r.0@.len() ==> {
                let g = (#[trigger] r.0@[i]);
                let pg = frontier@[r.1@[i] as int].genome;
                &&& g.num_inputs == pg.num_inputs
                &&& g.nodes@.len() == pg.nodes@.len()
                &&& (pg.wf() ==> g.wf())
                &&& genome_mutated_from(pg, g)
            },
{
    let f = frontier.len();
    let per = population / f;
    let mut genomes: Vec<Genome> = Vec::new();
    let mut parents: Vec<usize> = Vec::new();
    let mut p: usize = 0;
    while p < f
        invariant
            f == frontier@.len(),
            p <= f,
            genomes@.len() == p,
            parents@.len() == p,
            forall|i: int| 0 <= i < p ==> #[trigger] parents@[i] == i,
            forall|i: int|
                0 <= i < p ==> {
                    let g = (#[trigger] genomes@[i]);
                    let pg = frontier@[i].genome;
                    &&& g.num_inputs == pg.num_inputs
                    &&& g.nodes@ == pg.nodes@
                    &&& g.output_node_idx == pg.output_node_idx
                },
        decreases f - p,
    {
        genomes.push(copy_genome(&frontier[p].genome));
        parents.push(p);
        p = p + 1;
    }
    assert(per * f <= population) by (nonlinear_arith)
        requires
            per == population / f,
            f > 0,
    ;
    let mut p: usize = 0;
    while p < f
        invariant
            f == frontier@.len(),
            f > 0,
            per == population / f,
            per * f <= population,
            p <= f,
            forall|q: int|
                0 <= q < frontier@.len() ==> {
                    let g = (#[trigger] frontier@[q]).genome;
                    &&& g.num_inputs > 0
                    &&& g.num_inputs + g.nodes@.len() <= usize::MAX
                    &&& frontier@[q].last_improved_epoch <= epoch
                },
            genomes@.len() == parents@.len(),
            genomes@.len() == f + p * per,
            forall|i: int| 0 <= i < f ==> #[trigger] parents@[i] == i,
            forall|i: int| f <= i < genomes@.len() ==> #[trigger] parents@[i] == (i - f) / (per as int),
            forall|i: int| 0 <= i < genomes@.len() ==> #[trigger] parents@[i] < f,
            forall|i: int|
                0 <= i < f ==> {
                    let g = (#[trigger] genomes@[i]);
                    let pg = frontier@[i].genome;
                    &&& g.num_inputs == pg.num_inputs
                    &&& g.nodes@ == pg.nodes@
                    &&& g.output_node_idx == pg.output_node_idx
                },
            forall|i: int|
                0 <= i < genomes@.len() ==> {
                    let g = (#[trigger] genomes@[i]);
                    let pg = frontier@[parents@[i] as int].genome;
                    &&& g.num_inputs == pg.num_inputs
                    &&& g.nodes@.len() == pg.nodes@.len()
                    &&& (pg.wf() ==> g.wf())
                    &&& genome_mutated_from(pg, g)
                },
        decreases f - p,
    {
        let parent = &frontier[p];
        let stagnation = epoch - parent.last_improved_epoch;
        assert(p * per + per <= f * per) by (nonlinear_arith)
            requires
                p < f,
        ;
        let mut c: usize = 0;
        while c < per
            invariant
                f == frontier@.len(),
                f > 0,
                per == population / f,
                per * f <= population,
                p < f,
                p * per + per <= f * per,
                c <= per,
                *parent == frontier@[p as int],
                parent.genome.num_inputs > 0,
                parent.genome.num_inputs + parent.genome.nodes@.len() <= usize::MAX,
                genomes@.len() == parents@.len(),
                genomes@.len() == f + p * per + c,
                forall|i: int| 0 <= i < f ==> #[trigger] parents@[i] == i,
                forall|i: int| f <= i < genomes@.len() ==> #[trigger] parents@[i] == (i - f) / (per as int),
                forall|i: int| 0 <= i < genomes@.len() ==> #[trigger] parents@[i] < f,
                forall|i: int|
                    0 <= i < f ==> {
                        let g = (#[trigger] genomes@[i]);
                        let pg = frontier@[i].genome;
                        &&& g.num_inputs == pg.num_inputs
                        &&& g.nodes@ == pg.nodes@
                        &&& g.output_node_idx == pg.output_node_idx
                    },
                forall|i: int|
                    0 <= i < genomes@.len() ==> {
                        let g = (#[trigger] genomes@[i]);
                        let pg = frontier@[parents@[i] as int].genome;
                        &&& g.num_inputs == pg.num_inputs
                        &&& g.nodes@.len() == pg.nodes@.len()
                        &&& (pg.wf() ==> g.wf())
                        &&& genome_mutated_from(pg, g)
                    },
            decreases per - c,
        {
            let mut child = copy_genome(&parent.genome);
            let rate = draw_mutation_rate(stagnation, rng);
            proof {
                assert(child.wf() == parent.genome.wf());
            }
            child.mutate(rate, 1000, rng);
            let ghost idx = genomes@.len() as int;
            genomes.push(child);
            parents.push(p);
            proof {
                vstd::arithmetic::div_mod::lemma_fundamental_div_mod_converse(
                    idx - f,
                    per as int,
                    p as int,
                    c as int,
                );
                assert(parents@[idx] == (idx - f) / (per as int));
            }
            c = c + 1;
        }
        proof {
            assert(f + p * per + per == f + (p + 1) * per) by (nonlinear_arith);
        }
        p = p + 1;
    }
    proof {
        assert(f * per == p * per);
    }
    (genomes, parents)
}

/// `order` lists the indices `0..fits.len()` once each, by fitness, equal
/// fitnesses in index order (what a stable sort by fitness gives).
pub open spec fn is_fitness_order(fits: Seq<(u64, u64)>, order: Seq<usize>) -> bool {
    &&& order.len() == fits.len()
    &&& forall|t: int| 0 <= t < order.len() ==> #[trigger] order[t] < fits.len()
    &&& forall|s: int, t: int| 0 <= s < t < order.len() ==> #[trigger] order[s] != #[trigger] order[t]
    &&& forall|s: int, t: int|
        0 <= s < t < order.len() ==> fit_lt(#[trigger] fits[order[s] as int], #[trigger] fits[order[t] as int]) || (
        fits[order[s] as int] == fits[order[t] as int] && order[s] < order[t])
}

/// The indices of `fits` in the order of a stable sort by fitness.
pub fn fitness_order(fits: &Vec<(u64, u64)>) -> (order: Vec<usize>)
    ensures
        is_fitness_order(fits@, order@),
{
    let n = fits.len();
    let mut order: Vec<usize> = Vec::new();
    let mut j: usize = 0;
    while j < n
        invariant
            n == fits@.len(),
            j <= n,
            order@.len() == j,
            forall|t: int| 0 <= t < order@.len() ==> #[trigger] order@[t] < j,
            forall|s: int, t: int| 0 <= s < t < order@.len() ==> #[trigger] order@[s] != #[trigger] order@[t],
            forall|s: int, t: int|
                0 <= s < t < order@.len() ==> fit_lt(#[trigger] fits@[order@[s] as int], #[trigger] fits@[order@[t] as int])
                    || (fits@[order@[s] as int] == fits@[order@[t] as int] && order@[s] < order@[t]),
        decreases n - j,
    {
        let f = fits[j];
        let mut p: usize = 0;
        while p < order.len() && !fitness_less(f, fits[order[p]])
            invariant
                n == fits@.len(),
                j < n,
                f == fits@[j as int],
                p <= order@.len(),
                forall|t: int| 0 <= t < order@.len() ==> #[trigger] order@[t] < j,
                forall|t: int| 0 <= t < p ==> !fit_lt(f, #[trigger] fits@[order@[t] as int]),
            decreases order@.len() - p,
        {
            p = p + 1;
        }
        let ghost before = order@;
        proof {
            assert forall|t: int| p <= t < before.len() implies fit_lt(f, #[trigger] fits@[before[t] as int]) by {
                if t > p {
                    assert(fit_lt(fits@[before[p as int] as int], fits@[before[t] as int]) || fits@[before[p as int] as int]
                        == fits@[before[t] as int]);
                }
            }
        }
        order.insert(p, j);
        proof {
            let after = order@;
            assert(after == before.insert(p as int, j));
            assert forall|s: int, t: int| 0 <= s < t < after.len() implies fit_lt(
                #[trigger] fits@[after[s] as int],
                #[trigger] fits@[after[t] as int],
            ) || (fits@[after[s] as int] == fits@[after[t] as int] && after[s] < after[t]) by {
                if t < p {
                } else if t == p {
                    assert(after[s] == before[s]);
                    assert(!fit_lt(f, fits@[before[s] as int]));
                } else if s < p {
                    assert(after[t] == before[t - 1]);
                } else if s == p {
                    assert(after[t] == before[t - 1]);
                    assert(fit_lt(f, fits@[before[t - 1] as int]));
                } else {
                    assert(after[s] == before[s - 1]);
                    assert(after[t] == before[t - 1]);
                }
            }
            assert forall|s: int, t: int| 0 <= s < t < after.len() implies #[trigger] after[s] != #[trigger] after[t] by {
                if s < p && t > p {
                    assert(after[t] == before[t - 1]);
                } else if s > p {
                    assert(after[s] == before[s - 1]);
                    assert(after[t] == before[t - 1]);
                }
            }
        }
        j = j + 1;
    }
    order
}

/// The lineages sorted by fitness, stably: copies of `lineages` in the order
/// `fitness_order` gives for their fitnesses.
pub fn sort_by_fitness(lineages: &Vec<Individual>) -> (r: Vec<Individual>)
    ensures
        exists|order: Seq<usize>| {
            &&& #[trigger] is_fitness_order(fitness_of(lineages@), order)
            &&& r@.len() == order.len()
            &&& forall|t: int|
                0 <= t < order.len() ==> {
                    let c = #[trigger] lineages@[order[t] as int];
                    &&& r@[t].fitness == c.fitness
                    &&& r@[t].last_improved_epoch == c.last_improved_epoch
                    &&& r@[t].genome.num_inputs == c.genome.num_inputs
                    &&& r@[t].genome.nodes@ == c.genome.nodes@
                    &&& r@[t].genome.output_node_idx == c.genome.output_node_idx
                }
        },
{
    let mut fits: Vec<(u64, u64)> = Vec::new();
    let mut i: usize = 0;
    while i < lineages.len()
        invariant
            i <= lineages@.len(),
            fits@ == fitness_of(lineages@).take(i as int),
        decreases lineages@.len() - i,
    {
        fits.push(lineages[i].fitness);
        proof {
            assert(fitness_of(lineages@).take(i + 1) =~= fitness_of(lineages@).take(i as int).push(lineages@[i as int].fitness));
        }
        i = i + 1;
    }
    proof {
        assert(fits@ =~= fitness_of(lineages@));
    }
    let order = fitness_order(&fits);
    let mut r: Vec<Individual> = Vec::new();
    let mut t: usize = 0;
    while t < order.len()
        invariant
            is_fitness_order(fitness_of(lineages@), order@),
            fits@.len() == lineages@.len(),
            t <= order@.len(),
            r@.len() == t,
            forall|q: int|
                0 <= q < t ==> {
                    let c = #[trigger] lineages@[order@[q] as int];
                    &&& r@[q].fitness == c.fitness
                    &&& r@[q].last_improved_epoch == c.last_improved_epoch
                    &&& r@[q].genome.num_inputs == c.genome.num_inputs
                    &&& r@[q].genome.nodes@ == c.genome.nodes@
                    &&& r@[q].genome.output_node_idx == c.genome.output_node_idx
                },
        decreases order@.len() - t,
    {
        let k = order[t];
        proof {
            assert(order@[t as int] < fitness_of(lineages@).len());
        }
        let c = &lineages[k];
        r.push(Individual { genome: copy_genome(&c.genome), fitness: c.fitness, last_improved_epoch: c.last_improved_epoch });
        t = t + 1;
    }
    r
}

} // verus!
