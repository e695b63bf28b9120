use genetic_logic::evolve::{
    adaptive_rate, best_of_children, duplicate, select_best, task_error, EvolutionRun, MultiTask,
};
use genetic_logic::frontier::{
    breed, draw_mutation_rate, fitness_less, fitness_order, sort_by_fitness, inherit_staleness, mutation_rate_for_roll, next_frontier,
    select_frontier, GlobalBest, Individual, FRONTIER_SIZE,
};
use genetic_logic::gate::Genome;
use genetic_logic::gate_multi;
use genetic_logic::gpu_pack::pack_cell_genomes;
use genetic_logic::islands::{
    best_island, copy_universal, island_choice, island_generation, new_island, quine_score, Islander,
    ISLAND_MAX_STAGNATION,
};
use genetic_logic::quine16::Cell;
use genetic_logic::tasks::{adder_error, constant_error, pi_error};
use rand::SeedableRng;
use rand_chacha::ChaCha8Rng;

#[test]
fn task_errors_dispatch() {
    let g = gate_multi::Genome { num_inputs: 8, nodes: vec![], outputs: vec![0, 1] };
    assert_eq!(task_error(MultiTask::Adder4, &g), adder_error(&g));
    let c = gate_multi::Genome { num_inputs: 1, nodes: vec![], outputs: vec![0] };
    assert_eq!(task_error(MultiTask::Constant42, &c), constant_error(&c));
    assert_eq!(task_error(MultiTask::Constant42, &c), 4);
    let p = gate_multi::Genome { num_inputs: 3, nodes: vec![], outputs: vec![2, 1] };
    assert_eq!(task_error(MultiTask::PiDigits, &p), pi_error(&p));
}

#[test]
fn adaptive_rates() {
    assert_eq!(adaptive_rate(0), 5);
    assert_eq!(adaptive_rate(19), 5);
    assert_eq!(adaptive_rate(20), 20);
    assert_eq!(adaptive_rate(49), 20);
    assert_eq!(adaptive_rate(50), 50);
}

#[test]
fn children_never_lose_to_the_parent() {
    let mut rng = ChaCha8Rng::seed_from_u64(1);
    let parent = gate_multi::Genome::new_random(1, 50, 8, &mut rng);
    let parent_error = task_error(MultiTask::Constant42, &parent);
    let copy = duplicate(&parent);
    assert_eq!(task_error(MultiTask::Constant42, &copy), parent_error);
    let (best, err) = best_of_children(MultiTask::Constant42, &parent, 100, 5, 100, &mut rng);
    match best {
        Some(b) => {
            assert!(err < parent_error);
            assert_eq!(task_error(MultiTask::Constant42, &b), err);
            assert_eq!(b.nodes.len(), 50);
            for (x, y) in b.nodes.iter().zip(parent.nodes.iter()) {
                let changed = (x.op != y.op) as u32 + (x.in_a != y.in_a) as u32 + (x.in_b != y.in_b) as u32;
                assert!(changed <= 1);
            }
        }
        None => assert_eq!(err, parent_error),
    }
    let (none, same) = best_of_children(MultiTask::Constant42, &parent, 10, 0, 100, &mut rng);
    assert!(none.is_none());
    assert_eq!(same, parent_error);
}

#[test]
fn a_run_only_improves_between_kicks() {
    let mut rng = ChaCha8Rng::seed_from_u64(12345);
    let mut run = EvolutionRun::new(MultiTask::PiDigits, 3, 60, 8, 50, true, Some(5), &mut rng);
    let mut last = run.parent_error;
    let mut kicks = 0;
    for _ in 0..40 {
        let before_stagnant = run.stagnant;
        let kicked = run.generation(&mut rng);
        if kicked {
            kicks += 1;
            assert!(before_stagnant + 1 > 5);
            assert_eq!(run.stagnant, 0);
        } else {
            assert!(run.parent_error <= last);
        }
        assert_eq!(run.parent_error, task_error(MultiTask::PiDigits, &run.parent));
        last = run.parent_error;
    }
    assert!(kicks <= 40);
    let mut plain = EvolutionRun::new(MultiTask::Constant42, 1, 50, 8, 100, false, None, &mut rng);
    let mut last = plain.parent_error;
    for _ in 0..20 {
        assert!(!plain.generation(&mut rng));
        assert!(plain.parent_error <= last);
        last = plain.parent_error;
    }
}

#[test]
fn fitness_order_and_staleness() {
    assert!(fitness_less((1, 100), (2, 0)));
    assert!(fitness_less((2, 3), (2, 4)));
    assert!(!fitness_less((2, 4), (2, 4)));
    assert_eq!(inherit_staleness((5, 5), (5, 6), 3, 9), 9);
    assert_eq!(inherit_staleness((5, 6), (5, 6), 3, 9), 3);
    assert_eq!(mutation_rate_for_roll(0, 599), 1);
    assert_eq!(mutation_rate_for_roll(0, 600), 5);
    assert_eq!(mutation_rate_for_roll(5, 950), 20);
    assert_eq!(mutation_rate_for_roll(10, 100), 5);
    assert_eq!(mutation_rate_for_roll(30, 999), 250);
    let mut rng = ChaCha8Rng::seed_from_u64(2);
    for _ in 0..20 {
        assert!([1, 5, 20].contains(&draw_mutation_rate(1, &mut rng)));
    }
}

#[test]
fn frontier_selection() {
    let fits = vec![(5, 1), (3, 9), (5, 1), (3, 2), (7, 0), (3, 2), (1, 1)];
    let lasts = vec![10, 10, 10, 10, 10, 10, 2];
    // Candidate 6 is stale at epoch 30 (30 - 2 > 20).
    let sel = select_frontier(&fits, &lasts, 30);
    assert_eq!(sel, vec![3, 1, 0, 4]);
    let sel = select_frontier(&fits, &lasts, 12);
    assert_eq!(sel, vec![6, 3, 1, 0, 4]);
    let many: Vec<(u64, u64)> = (0..100u64).rev().map(|e| (e, 0)).collect();
    let lasts = vec![0; 100];
    let sel = select_frontier(&many, &lasts, 0);
    assert_eq!(sel.len(), FRONTIER_SIZE);
    assert_eq!(sel[0], 99);
    assert_eq!(sel[63], 36);
    assert!(select_frontier(&vec![], &vec![], 5).is_empty());
}

fn individual(rng: &mut ChaCha8Rng, fitness: (u64, u64), last: usize) -> Individual {
    Individual { genome: Genome::new_random(3, 10, rng), fitness, last_improved_epoch: last }
}

#[test]
fn next_frontier_is_sorted_and_refilled() {
    let mut rng = ChaCha8Rng::seed_from_u64(4);
    let candidates = vec![
        individual(&mut rng, (9, 9), 5),
        individual(&mut rng, (4, 1), 5),
        individual(&mut rng, (4, 1), 5),
        individual(&mut rng, (2, 7), 0),
    ];
    let (frontier, sel) = next_frontier(&candidates, 25, 3, 10, &mut rng);
    assert_eq!(sel, vec![1, 0]);
    assert_eq!(frontier.len(), FRONTIER_SIZE);
    assert_eq!(frontier[0].fitness, (4, 1));
    assert_eq!(frontier[0].genome.output_node_idx, candidates[1].genome.output_node_idx);
    assert_eq!(frontier[1].fitness, (9, 9));
    for ind in &frontier[2..] {
        assert_eq!(ind.fitness, (u64::MAX, u64::MAX));
        assert_eq!(ind.last_improved_epoch, 25);
        assert_eq!(ind.genome.nodes.len(), 10);
    }
}

#[test]
fn breeding_keeps_parents_first() {
    let mut rng = ChaCha8Rng::seed_from_u64(6);
    let frontier = vec![individual(&mut rng, (3, 3), 0), individual(&mut rng, (4, 4), 2)];
    let (genomes, parents) = breed(&frontier, 10, 7, &mut rng);
    assert_eq!(genomes.len(), 2 + 2 * 3);
    assert_eq!(parents, vec![0, 1, 0, 0, 0, 1, 1, 1]);
    assert_eq!(genomes[1].output_node_idx, frontier[1].genome.output_node_idx);
    for (i, g) in genomes.iter().enumerate() {
        assert_eq!(g.nodes.len(), 10);
        assert!(g.output_node_idx < 13, "genome {}", i);
        let parent = &frontier[parents[i]].genome;
        for (a, b) in g.nodes.iter().zip(parent.nodes.iter()) {
            let changed = (a.op != b.op) as u32 + (a.in_a != b.in_a) as u32 + (a.in_b != b.in_b) as u32;
            assert!(changed <= 1);
        }
    }
}

#[test]
fn global_best_and_asteroid() {
    let mut best = GlobalBest { fitness: (10, 10), epochs_since_improvement: 0 };
    best.update((10, 5));
    assert_eq!(best.fitness, (10, 5));
    assert_eq!(best.epochs_since_improvement, 1);
    best.update((8, 50));
    assert_eq!(best.fitness, (8, 50));
    assert_eq!(best.epochs_since_improvement, 0);
    for _ in 0..31 {
        best.update((9, 0));
    }
    assert_eq!(best.fitness, (8, 50));
    assert!(best.asteroid_due());
}

#[test]
fn organism_records() {
    let a = vec![Cell { op: 1, dir_a: 2, dir_b: 3, flags: 0 }, Cell { op: 16, dir_a: 7, dir_b: 0, flags: 3 }];
    let b = vec![Cell { op: 5, dir_a: 5, dir_b: 5, flags: 1 }];
    assert_eq!(pack_cell_genomes(&vec![a, b]), vec![1, 2, 3, 0, 16, 7, 0, 3, 5, 5, 5, 1]);
}

#[test]
fn island_generations() {
    let mut rng = ChaCha8Rng::seed_from_u64(42);
    let mut islands: Vec<_> = (0..3).map(|_| new_island(&mut rng)).collect();
    for ind in &islands {
        assert_eq!((ind.fitness, ind.target_len), quine_score(&ind.genome));
        assert_eq!(ind.stagnation, 0);
    }
    for _ in 0..3 {
        let (next, reseeded) = island_generation(&islands, &mut rng);
        assert_eq!(next.len(), 3);
        for p in 0..3 {
            assert_eq!((next[p].fitness, next[p].target_len), quine_score(&next[p].genome));
            assert!(!reseeded[p]);
            assert!(next[p].stagnation == 0 || next[p].stagnation == islands[p].stagnation + 1);
            if islands[p].fitness < u32::MAX {
                assert!(next[p].fitness <= islands[p].fitness);
                let old = &islands[p].genome;
                for (a, b) in next[p].genome.nodes.iter().zip(old.nodes.iter()) {
                    let changed =
                        (a.table != b.table) as u32 + (a.in_a != b.in_a) as u32 + (a.in_b != b.in_b) as u32;
                    assert!(changed <= 1);
                }
            }
        }
        islands = next;
    }
    let b = best_island(&islands);
    assert!(islands.iter().all(|i| islands[b].fitness <= i.fitness));
}

#[test]
fn stagnant_islands_are_reseeded() {
    let mut rng = ChaCha8Rng::seed_from_u64(8);
    let fresh = new_island(&mut rng);
    let stuck = Islander { genome: fresh.genome, fitness: fresh.fitness, target_len: fresh.target_len, stagnation: ISLAND_MAX_STAGNATION };
    let (next, reseeded) = island_generation(&vec![stuck], &mut rng);
    if reseeded[0] {
        assert_eq!(next[0].stagnation, 0);
    } else {
        assert_eq!(next[0].stagnation, 0);
        assert!(next[0].fitness < fresh.fitness);
    }
}

/// A constant network spelling `b`: outputs read input 0 (`true`) or node 0,
/// the XOR of input 0 with itself (`false`).
fn byte_genome(b: u8) -> gate_multi::Genome {
    let outputs = (0..8).map(|i| if (b >> i) & 1 == 1 { 0 } else { 1 }).collect();
    let zero = gate_multi::Node { op: gate_multi::Operation::XOR, in_a: 0, in_b: 0 };
    gate_multi::Genome { num_inputs: 1, nodes: vec![zero], outputs }
}

#[test]
fn select_best_keeps_the_first_child_of_least_error() {
    let t = MultiTask::Constant42;
    assert_eq!(task_error(t, &byte_genome(42)), 0);
    assert_eq!(task_error(t, &byte_genome(0)), 3);
    assert_eq!(task_error(t, &byte_genome(43)), 1);
    let parent = byte_genome(0);
    // The first beating child is not the best one: the best is kept.
    let children = vec![byte_genome(43), byte_genome(40), byte_genome(42), byte_genome(42)];
    assert_eq!(select_best(t, &parent, &children), (Some(2), 0));
    // Ties go to the first child of least error.
    let children = vec![byte_genome(255), byte_genome(43), byte_genome(40)];
    assert_eq!(select_best(t, &parent, &children), (Some(1), 1));
    // A child as good as the parent does not replace it.
    let children = vec![byte_genome(1), byte_genome(255)];
    assert_eq!(select_best(t, &parent, &children), (None, 3));
    assert_eq!(select_best(t, &parent, &vec![]), (None, 3));
}

#[test]
fn apply_selection_updates_the_run() {
    let mut rng = ChaCha8Rng::seed_from_u64(77);
    let mut run = EvolutionRun::new(MultiTask::Constant42, 1, 1, 8, 10, false, Some(2), &mut rng);
    run.parent = byte_genome(0);
    run.parent_error = 3;
    run.stagnant = 2;
    assert!(run.apply_selection(None, 3));
    assert_eq!(run.stagnant, 3);
    assert_eq!(run.parent_error, 3);
    run.stagnant = 1;
    assert!(!run.apply_selection(None, 3));
    assert_eq!(run.stagnant, 2);
    assert!(!run.apply_selection(Some(byte_genome(43)), 1));
    assert_eq!(run.parent_error, 1);
    assert_eq!(run.stagnant, 0);
    assert_eq!(run.parent.outputs, byte_genome(43).outputs);
    run.kick_after = None;
    run.stagnant = 4;
    assert!(!run.apply_selection(None, 1));
    assert_eq!(run.stagnant, 4);
}

#[test]
fn island_choice_takes_the_first_least_finite_score() {
    let mut rng = ChaCha8Rng::seed_from_u64(31);
    let parent = new_island(&mut rng);
    let mut candidates = vec![copy_universal(&parent.genome)];
    for _ in 0..30 {
        candidates.push(new_island(&mut rng).genome);
    }
    let scores: Vec<u32> = candidates.iter().map(|g| quine_score(g).0).collect();
    let (choice, stagnation) = island_choice(&parent, &candidates);
    let least = *scores.iter().min().unwrap();
    if least == u32::MAX {
        assert_eq!(choice, None);
        assert_eq!(stagnation, parent.stagnation + 1);
    } else {
        let first = scores.iter().position(|&s| s == least).unwrap();
        assert_eq!(choice, Some(first));
        assert_eq!(stagnation, if least < parent.fitness { 0 } else { parent.stagnation + 1 });
    }
    // Only unscorable candidates: nothing is chosen.
    let mut lone = Islander {
        genome: copy_universal(&parent.genome),
        fitness: u32::MAX,
        target_len: 1,
        stagnation: 4,
    };
    let empty: Vec<genetic_logic::gate_universal::Genome> = vec![];
    assert_eq!(island_choice(&lone, &empty), (None, 5));
    lone.stagnation = 0;
    assert_eq!(island_choice(&lone, &empty), (None, 1));
}

#[test]
fn fitness_order_is_a_stable_sort() {
    let fits = vec![(3, 1), (1, 9), (3, 0), (1, 9), (0, 5), (3, 1)];
    assert_eq!(fitness_order(&fits), vec![4, 1, 3, 2, 0, 5]);
    assert_eq!(fitness_order(&vec![]), Vec::<usize>::new());
    let mut rng = ChaCha8Rng::seed_from_u64(8);
    let lineages: Vec<Individual> = fits
        .iter()
        .enumerate()
        .map(|(i, &f)| Individual { genome: Genome::new_random(2, 3, &mut rng), fitness: f, last_improved_epoch: i })
        .collect();
    let sorted = sort_by_fitness(&lineages);
    let epochs: Vec<usize> = sorted.iter().map(|c| c.last_improved_epoch).collect();
    assert_eq!(epochs, vec![4, 1, 3, 2, 0, 5]);
    assert_eq!(sorted[0].genome.nodes.len(), 3);
    assert_eq!(sorted[0].genome.output_node_idx, lineages[4].genome.output_node_idx);
}
