//! The (1 + N) evolution strategy of the multi-output gate networks: each
//! generation, `N` mutated copies of the parent are scored and the best one
//! replaces the parent when it is strictly better. With an adaptive rate, the
//! mutation rate grows with the number of generations without improvement,
//! and a parent stuck for too long is replaced by a fresh random genome.
use vstd::prelude::*;
use rand_chacha::ChaCha8Rng;
use crate::gate_multi::{Genome, genome_mutated_from};
use crate::tasks::{
    adder_error, adder_errors_upto, constant_error, constant_output, hamming8, pi_error, pi_errors_upto,
    TARGET_CONSTANT,
};

verus! {

/// The tasks scored on multi-output networks.
#[derive(Clone, Copy, Debug, PartialEq, Eq, Structural)]
pub enum MultiTask {
    /// Inputs A0..A3, B0..B3; the outputs should spell A + B.
    Adder4,
    /// Input `true`; the outputs should spell 42.
    Constant42,
    /// Input a digit position; the outputs should spell that digit of pi.
    PiDigits,
}

/// Error of a genome on a task: the number of wrong output bits.
pub open spec fn task_error_spec(task: MultiTask, g: Genome) -> int {
    match task {
        MultiTask::Adder4 => adder_errors_upto(g, 256) as int,
        MultiTask::Constant42 => hamming8(constant_output(g), TARGET_CONSTANT) as int,
        MultiTask::PiDigits => pi_errors_upto(g, 7) as int,
    }
}

pub fn task_error(task: MultiTask, g: &Genome) -> (r: u32)
    ensures
        r == task_error_spec(task, *g),
{
    match task {
        MultiTask::Adder4 => adder_error(g),
        MultiTask::Constant42 => constant_error(g),
        MultiTask::PiDigits => pi_error(g),
    }
}

/// A copy of a genome.
pub fn duplicate(g: &Genome) -> (r: Genome)
    ensures
        r.num_inputs == g.num_inputs,
        r.nodes@ == g.nodes@,
        r.outputs@ == g.outputs@,
{
    let mut nodes = Vec::with_capacity(g.nodes.len());
    let mut i: usize = 0;
    while i < g.nodes.len()
        invariant
            i <= g.nodes@.len(),
            nodes@ == g.nodes@.take(i as int),
        decreases g.nodes@.len() - i,
    {
        nodes.push(g.nodes[i]);
        proof {
            assert(g.nodes@.take(i + 1) =~= g.nodes@.take(i as int).push(g.nodes@[i as int]));
        }
        i = i + 1;
    }
    let mut outputs = Vec::with_capacity(g.outputs.len());
    let mut q: usize = 0;
    while q < g.outputs.len()
        invariant
            q <= g.outputs@.len(),
            outputs@ == g.outputs@.take(q as int),
        decreases g.outputs@.len() - q,
    {
        outputs.push(g.outputs[q]);
        proof {
            assert(g.outputs@.take(q + 1) =~= g.outputs@.take(q as int).push(g.outputs@[q as int]));
        }
        q = q + 1;
    }
    proof {
        assert(nodes@ =~= g.nodes@);
        assert(outputs@ =~= g.outputs@);
    }
    Genome { num_inputs: g.num_inputs, nodes, outputs }
}

/// The shape a genome keeps through mutation: its input count, node count
/// and output count, and well-formedness.
pub open spec fn same_shape(a: Genome, b: Genome) -> bool {
    &&& a.num_inputs == b.num_inputs
    &&& a.nodes@.len() == b.nodes@.len()
    &&& a.outputs@.len() == b.outputs@.len()
    &&& b.wf()
}

/// The requirements of mutating a genome of this shape.
pub open spec fn mutable(g: Genome) -> bool {
    &&& g.num_inputs + g.nodes@.len() <= usize::MAX
    &&& (g.outputs@.len() == 0 || g.num_inputs + g.nodes@.len() > 0)
    &&& g.wf()
}

/// Child `i` of `children` is the one the (1 + N) strategy keeps against a
/// parent of error `parent_error`: its error is below the parent's, no child
/// has a smaller error, and every child before it has a larger one (the
/// first child of least error).
pub open spec fn first_least(task: MultiTask, parent_error: int, children: Seq<Genome>, i: int) -> bool {
    &&& 0 <= i < children.len()
    &&& task_error_spec(task, children[i]) < parent_error
    &&& forall|j: int| 0 <= j < children.len() ==> task_error_spec(task, children[i]) <= task_error_spec(task, #[trigger] children[j])
    &&& forall|j: int| 0 <= j < i ==> task_error_spec(task, children[i]) < task_error_spec(task, #[trigger] children[j])
}

/// No child has an error below `parent_error`.
pub open spec fn none_better(task: MultiTask, parent_error: int, children: Seq<Genome>) -> bool {
    forall|j: int| 0 <= j < children.len() ==> parent_error <= task_error_spec(task, #[trigger] children[j])
}

/// The selection of one generation among scored children: the first child of
/// least error when it beats the parent, with its error; else no child, with
/// the parent's error.
pub fn select_best(task: MultiTask, parent: &Genome, children: &Vec<Genome>) -> (r: (Option<usize>, u32))
    ensures
        match r.0 {
            Some(i) => first_least(task, task_error_spec(task, *parent), children@, i as int) && r.1
                == task_error_spec(task, children@[i as int]),
            None => none_better(task, task_error_spec(task, *parent), children@) && r.1 == task_error_spec(
                task,
                *parent,
            ),
        },
{
    let parent_error = task_error(task, parent);
    let mut best: Option<usize> = None;
    let mut best_error = parent_error;
    let mut k: usize = 0;
    while k < children.len()
        invariant
            k <= children@.len(),
            parent_error == task_error_spec(task, *parent),
            match best {
                Some(i) => {
                    &&& i < k
                    &&& best_error == task_error_spec(task, children@[i as int])
                    &&& best_error < parent_error
                    &&& forall|j: int| 0 <= j < k ==> best_error <= task_error_spec(task, #[trigger] children@[j])
                    &&& forall|j: int| 0 <= j < i ==> best_error < task_error_spec(task, #[trigger] children@[j])
                },
                None => {
                    &&& best_error == parent_error
                    &&& forall|j: int| 0 <= j < k ==> parent_error <= task_error_spec(task, #[trigger] children@[j])
                },
            },
        decreases children@.len() - k,
    {
        let e = task_error(task, &children[k]);
        if e < best_error {
            best = Some(k);
            best_error = e;
        }
        k = k + 1;
    }
    (best, best_error)
}

/// `children` could be the children drawn in one generation from `parent`
/// (`population` of them, each a mutation of the parent keeping its shape),
/// and `r` is what the generation keeps of them.
pub open spec fn drawn_selection(
    task: MultiTask,
    parent: Genome,
    population: usize,
    children: Seq<Genome>,
    r: (Option<Genome>, u32),
) -> bool {
    &&& children.len() == population
    &&& forall|j: int| 0 <= j < children.len() ==> same_shape(parent, #[trigger] children[j])
    &&& forall|j: int| 0 <= j < children.len() ==> genome_mutated_from(parent, #[trigger] children[j])
    &&& match r.0 {
        Some(g) => exists|i: int|
            first_least(task, task_error_spec(task, parent), children, i) && #[trigger] children[i] == g
                && r.1 == task_error_spec(task, g),
        None => none_better(task, task_error_spec(task, parent), children) && r.1 == task_error_spec(
            task,
            parent,
        ),
    }
}

/// What a generation kept, read off the parent it leaves: the new parent
/// when its error went below `old_error`, else nothing; with the new error.
pub open spec fn kept_of(old_error: u32, parent: Genome, error: u32) -> (Option<Genome>, u32) {
    (if error < old_error { Some(parent) } else { None }, error)
}

/// One generation: `population` mutated copies of `parent` are drawn and
/// scored, and `select_best` keeps the first child of least error when it
/// beats the parent. Returns that child, or `None` when no child beats the
/// parent (always when `population` is 0), and the error kept.
pub fn best_of_children(
    task: MultiTask,
    parent: &Genome,
    population: usize,
    rate_numerator: u32,
    rate_denominator: u32,
    rng: &mut ChaCha8Rng,
) -> (r: (Option<Genome>, u32))
    requires
        mutable(*parent),
        0 < rate_denominator,
        rate_numerator <= rate_denominator,
    ensures
        r.0 is None ==> r.1 == task_error_spec(task, *parent),
        r.0 is Some ==> r.1 == task_error_spec(task, r.0->0) && r.1 < task_error_spec(task, *parent)
            && same_shape(*parent, r.0->0),
        population == 0 ==> r.0 is None,
        exists|children: Seq<Genome>| #[trigger] drawn_selection(task, *parent, population, children, r),
{
    let mut children: Vec<Genome> = Vec::new();
    let mut k: usize = 0;
    while k < population
        invariant
            k <= population,
            mutable(*parent),
            0 < rate_denominator,
            rate_numerator <= rate_denominator,
            children@.len() == k,
            forall|j: int| 0 <= j < k ==> same_shape(*parent, #[trigger] children@[j]),
            forall|j: int| 0 <= j < k ==> genome_mutated_from(*parent, #[trigger] children@[j]),
        decreases population - k,
    {
        let mut child = duplicate(parent);
        proof {
            assert(child.wf() == parent.wf());
        }
        child.mutate(rate_numerator, rate_denominator, rng);
        children.push(child);
        k = k + 1;
    }
    let ghost drawn = children@;
    let (sel, err) = select_best(task, parent, &children);
    match sel {
        Some(i) => {
            let child = children.remove(i);
            let r = (Some(child), err);
            assert(drawn[i as int] == child);
            assert(drawn_selection(task, *parent, population, drawn, r));
            r
        },
        None => {
            let r = (None, err);
            assert(drawn_selection(task, *parent, population, drawn, r));
            r
        },
    }
}

/// Mutation rate in percent after `stagnant` generations without
/// improvement: 5, then 20 from 20 generations on, then 50 from 50 on.
pub open spec fn adaptive_rate_spec(stagnant: u32) -> u32 {
    if stagnant < 20 {
        5
    } else if stagnant < 50 {
        20
    } else {
        50
    }
}

pub fn adaptive_rate(stagnant: u32) -> (r: u32)
    ensures
        r == adaptive_rate_spec(stagnant),
{
    if stagnant < 20 {
        5
    } else if stagnant < 50 {
        20
    } else {
        50
    }
}

/// A (1 + N) run on one task.
pub struct EvolutionRun {
    pub task: MultiTask,
    pub parent: Genome,
    /// The parent's error.
    pub parent_error: u32,
    /// Generations since the parent last improved.
    pub stagnant: u32,
    /// Children per generation.
    pub population: usize,
    /// Whether the rate adapts to stagnation (else it stays at 5%).
    pub adaptive: bool,
    /// Stagnant generations after which the parent is replaced by a random
    /// genome; `None` to never do so (the best child then always replaces
    /// the parent).
    pub kick_after: Option<u32>,
    /// Shape of the genomes: nodes and outputs.
    pub num_nodes: usize,
    pub num_outputs: usize,
}

impl EvolutionRun {
    pub open spec fn wf(&self) -> bool {
        &&& mutable(self.parent)
        &&& self.parent_error == task_error_spec(self.task, self.parent)
        &&& self.parent.nodes@.len() == self.num_nodes
        &&& self.parent.outputs@.len() == self.num_outputs
    }

    /// A run from a random parent.
    pub fn new(
        task: MultiTask,
        num_inputs: usize,
        num_nodes: usize,
        num_outputs: usize,
        population: usize,
        adaptive: bool,
        kick_after: Option<u32>,
        rng: &mut ChaCha8Rng,
    ) -> (r: EvolutionRun)
        requires
            num_inputs + num_nodes <= usize::MAX,
            num_outputs > 0 ==> num_inputs + num_nodes > 0,
        ensures
            r.wf(),
            r.task == task,
            r.parent.num_inputs == num_inputs,
            r.stagnant == 0,
            r.population == population,
            r.adaptive == adaptive,
            r.kick_after == kick_after,
            r.num_nodes == num_nodes,
            r.num_outputs == num_outputs,
    {
        let parent = Genome::new_random(num_inputs, num_nodes, num_outputs, rng);
        let parent_error = task_error(task, &parent);
        EvolutionRun {
            task,
            parent,
            parent_error,
            stagnant: 0,
            population,
            adaptive,
            kick_after,
            num_nodes,
            num_outputs,
        }
    }

    /// The update that follows one generation's selection (`best`, with error
    /// `best_error`, as `best_of_children` returns it). A kept child becomes
    /// the parent with its error, and the stagnation count restarts when the
    /// run can kick. Without a child the parent stays; a run that can kick
    /// counts one more stagnant generation and returns whether that count
    /// passed `kick_after` (the parent is then to be replaced).
    pub fn apply_selection(&mut self, best: Option<Genome>, best_error: u32) -> (kick: bool)
        requires
            old(self).wf(),
            old(self).stagnant < u32::MAX,
            match best {
                Some(b) => same_shape(old(self).parent, b) && best_error == task_error_spec(old(self).task, b),
                None => true,
            },
        ensures
            final(self).task == old(self).task,
            final(self).population == old(self).population,
            final(self).adaptive == old(self).adaptive,
            final(self).kick_after == old(self).kick_after,
            final(self).num_nodes == old(self).num_nodes,
            final(self).num_outputs == old(self).num_outputs,
            final(self).wf(),
            match best {
                Some(b) => {
                    &&& final(self).parent == b
                    &&& final(self).parent_error == best_error
                    &&& final(self).stagnant == (if old(self).kick_after is Some { 0 } else { old(self).stagnant })
                    &&& !kick
                },
                None => {
                    &&& final(self).parent == old(self).parent
                    &&& final(self).parent_error == old(self).parent_error
                    &&& match old(self).kick_after {
                        Some(limit) => final(self).stagnant == old(self).stagnant + 1 && kick == (old(
                            self,
                        ).stagnant + 1 > limit),
                        None => final(self).stagnant == old(self).stagnant && !kick,
                    }
                },
            },
    {
        match best {
            Some(b) => {
                self.parent = b;
                self.parent_error = best_error;
                if self.kick_after.is_some() {
                    self.stagnant = 0;
                }
                false
            },
            None => {
                match self.kick_after {
                    Some(limit) => {
                        self.stagnant = self.stagnant + 1;
                        self.stagnant > limit
                    },
                    None => false,
                }
            },
        }
    }

    /// One generation: `best_of_children` at the current rate (adaptive, or
    /// 5%), then `apply_selection`; when that asks for it, the run starts
    /// over from a random parent with its stagnation count at 0. Returns
    /// whether it started over.
    pub fn generation(&mut self, rng: &mut ChaCha8Rng) -> (kicked: bool)
        requires
            old(self).wf(),
            old(self).stagnant < u32::MAX,
        ensures
            final(self).wf(),
            final(self).task == old(self).task,
            final(self).parent.num_inputs == old(self).parent.num_inputs,
            final(self).population == old(self).population,
            final(self).adaptive == old(self).adaptive,
            final(self).kick_after == old(self).kick_after,
            final(self).num_nodes == old(self).num_nodes,
            final(self).num_outputs == old(self).num_outputs,
            !kicked ==> final(self).parent_error <= old(self).parent_error,
            !kicked && final(self).parent_error == old(self).parent_error ==> final(self).parent == old(self).parent,
            final(self).parent_error < old(self).parent_error ==> final(self).stagnant == 0 || old(
                self,
            ).kick_after is None,
            kicked ==> old(self).kick_after is Some && old(self).stagnant + 1 > old(self).kick_after->0
                && final(self).stagnant == 0,
            !kicked && final(self).parent_error == old(self).parent_error && old(self).kick_after is Some
                ==> final(self).stagnant == old(self).stagnant + 1,
            !kicked ==> exists|children: Seq<Genome>|
                #[trigger] drawn_selection(
                    old(self).task,
                    old(self).parent,
                    old(self).population,
                    children,
                    kept_of(old(self).parent_error, final(self).parent, final(self).parent_error),
                ),
    {
        let percent = if self.adaptive { adaptive_rate(self.stagnant) } else { 5 };
        let (best, best_fitness) = best_of_children(self.task, &self.parent, self.population, percent, 100, rng);
        let ghost old_parent = self.parent;
        let ghost old_error = self.parent_error;
        let ghost kept = (best, best_fitness);
        let kick = self.apply_selection(best, best_fitness);
        proof {
            if !kick {
                let r = kept_of(old_error, self.parent, self.parent_error);
                match kept.0 {
                    Some(b) => {
                        assert(r == kept);
                    },
                    None => {
                        assert(r == kept);
                    },
                }
            }
        }
        if kick {
            let ni = self.parent.num_inputs;
            let fresh = Genome::new_random(ni, self.num_nodes, self.num_outputs, rng);
            self.parent_error = task_error(self.task, &fresh);
            self.parent = fresh;
            self.stagnant = 0;
        }
        kick
    }
}

} // verus!
