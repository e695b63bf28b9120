use genetic_logic::gate_multi;
use genetic_logic::gate_multi::{Node, Operation};
use genetic_logic::gate_universal::{Genome as UGenome, UniversalNode};
use genetic_logic::tasks::{
    adder_error, bools_to_u8, byte_errors, constant_error, count_ones, eval_to_u8, get_all_outputs, pi_error,
    quine_error, u8_to_bool_array, TARGET_CONSTANT,
};
use rand::SeedableRng;
use rand_chacha::ChaCha8Rng;

fn xor_and_genome() -> UGenome {
    UGenome {
        num_inputs: 2,
        nodes: vec![
            UniversalNode { table: 0b0110, in_a: 0, in_b: 1 },
            UniversalNode { table: 0b1000, in_a: 0, in_b: 1 },
            UniversalNode { table: 0b1010, in_a: 2, in_b: 2 },
        ],
        output_node: 4,
    }
}

#[test]
fn universal_eval_reads_truth_tables() {
    let g = xor_and_genome();
    assert!(!g.eval(&[false, false]));
    assert!(g.eval(&[false, true]));
    assert!(g.eval(&[true, false]));
    assert!(!g.eval(&[true, true]));
    let mut h = g.clone();
    h.output_node = 3;
    assert!(h.eval(&[true, true]));
    assert!(!h.eval(&[true, false]));
}

#[test]
fn universal_out_of_range_reads_are_false() {
    let g = UGenome { num_inputs: 1, nodes: vec![UniversalNode { table: 0b0001, in_a: 9, in_b: 9 }], output_node: 1 };
    // NOR of two missing values (false, false) is true.
    assert!(g.eval(&[true]));
    let h = UGenome { num_inputs: 1, nodes: vec![], output_node: 5 };
    assert!(!h.eval(&[true]));
}

#[test]
fn active_genome_keeps_the_output() {
    let g = xor_and_genome();
    let a = g.get_active_genome();
    assert_eq!(a.nodes.len(), 2);
    assert_eq!(a.output_node, 3);
    assert_eq!(a.nodes[1].in_a, 2);
    for x in [false, true] {
        for y in [false, true] {
            assert_eq!(a.eval(&[x, y]), g.eval(&[x, y]));
        }
    }
}

#[test]
fn genome_bits_layout() {
    let g = UGenome { num_inputs: 2, nodes: vec![UniversalNode { table: 0b1001, in_a: 3, in_b: 1 }], output_node: 2 };
    let bits = g.to_bits();
    assert_eq!(bits.len(), 28 + 12);
    assert_eq!(&bits[0..4], &[true, false, false, true]);
    assert_eq!(&bits[4..7], &[true, true, false]);
    assert!(bits[7..16].iter().all(|b| !b));
    assert!(bits[16]);
    assert!(bits[17..28].iter().all(|b| !b));
    assert!(!bits[28]);
    assert!(bits[29]);
}

#[test]
fn universal_random_and_mutate() {
    let mut rng = ChaCha8Rng::seed_from_u64(5);
    let mut g = UGenome::new_random(11, 100, &mut rng);
    assert_eq!(g.nodes.len(), 100);
    assert!(g.output_node < 111);
    for (i, n) in g.nodes.iter().enumerate() {
        assert!((n.in_a as usize) < 11 + i);
        assert!((n.in_b as usize) < 11 + i);
        assert!(n.table < 16);
    }
    g.mutate(1, 2, &mut rng);
    assert!(g.output_node < 111);
    for (i, n) in g.nodes.iter().enumerate() {
        assert!((n.in_a as usize) < 11 + i);
        assert!(n.table < 16);
    }
}

#[test]
fn quine_error_rejects_small_genomes() {
    let g = xor_and_genome();
    assert_eq!(quine_error(&g), (u32::MAX, 1));
}

#[test]
fn quine_error_counts_wrong_bits() {
    // A chain of 20 wires reading input 0: every node is active.
    let mut nodes = vec![UniversalNode { table: 0b1100, in_a: 0, in_b: 0 }];
    for i in 1..20u16 {
        nodes.push(UniversalNode { table: 0b1100, in_a: 10 + i, in_b: 10 + i });
    }
    let g = UGenome { num_inputs: 11, nodes, output_node: 30 };
    let target = g.get_active_genome().to_bits();
    assert_eq!(target.len(), 20 * 28 + 12);
    let mut expected = 0u32;
    for (i, &bit) in target.iter().enumerate() {
        let answer = i & 1 == 1;
        if answer != bit {
            expected += 1;
        }
    }
    assert_eq!(quine_error(&g), (expected, target.len()));
}

fn multi(nodes: Vec<gate_multi::Node>, outputs: Vec<usize>, num_inputs: usize) -> gate_multi::Genome {
    gate_multi::Genome { num_inputs, nodes, outputs }
}

#[test]
fn multi_output_eval() {
    let g = multi(
        vec![Node { op: Operation::XOR, in_a: 0, in_b: 1 }, Node { op: Operation::AND, in_a: 0, in_b: 1 }],
        vec![2, 3, 0],
        2,
    );
    assert_eq!(g.eval(&[true, true]), vec![false, true, true]);
    assert_eq!(g.eval(&[true, false]), vec![true, false, true]);
    assert!(Operation::NAND.eval(true, true) == false);
    assert!(Operation::NOT.eval(false, true));
    assert!(Operation::WIRE.eval(true, false));
}

#[test]
fn multi_random_and_mutate() {
    let mut rng = ChaCha8Rng::seed_from_u64(9);
    let mut g = gate_multi::Genome::new_random(8, 40, 5, &mut rng);
    assert_eq!(g.outputs.len(), 5);
    assert!(g.outputs.iter().all(|&o| o < 48));
    g.mutate(1, 1, &mut rng);
    assert!(g.outputs.iter().all(|&o| o < 48));
    for (i, n) in g.nodes.iter().enumerate() {
        assert!(n.in_a < 8 + i && n.in_b < 8 + i);
    }
}

#[test]
fn byte_packing() {
    assert_eq!(bools_to_u8(&[true, false, true]), 5);
    assert_eq!(bools_to_u8(&[]), 0);
    assert_eq!(bools_to_u8(&[false, false, false, false, false, false, false, true, true]), 128);
    assert_eq!(u8_to_bool_array(5, 4), vec![true, false, true, false]);
    assert_eq!(u8_to_bool_array(255, 0), Vec::<bool>::new());
    assert_eq!(count_ones(0xF0F0), 8);
    assert_eq!(count_ones(u32::MAX), 32);
    assert_eq!(byte_errors(0b1010_1010, 0b0101_0101), 8);
    assert_eq!(byte_errors(42, 42), 0);
}

#[test]
fn adder_error_of_a_silent_genome() {
    let g = multi(vec![], vec![], 8);
    let mut expected = 0u32;
    for a in 0..16u32 {
        for b in 0..16u32 {
            expected += ((a + b) as u8).count_ones();
        }
    }
    assert_eq!(adder_error(&g), expected);
}

#[test]
fn adder_error_of_a_perfect_low_bit() {
    // Output 0 is A0 XOR B0, the low bit of every sum; the rest are silent.
    let g = multi(vec![Node { op: Operation::XOR, in_a: 0, in_b: 4 }], vec![8], 8);
    let mut expected = 0u32;
    for a in 0..16u32 {
        for b in 0..16u32 {
            expected += (((a + b) as u8) & 0xFE).count_ones();
        }
    }
    assert_eq!(adder_error(&g), expected);
}

#[test]
fn constant_and_pi_errors() {
    let g = multi(vec![], vec![0], 1);
    assert_eq!(eval_to_u8(&g), 1);
    assert_eq!(constant_error(&g), (1u8 ^ 42).count_ones());
    // Outputs: input (true) at bit 0 and bit 3, the missing value 1 reads as
    // false: the byte 9.
    let g = multi(vec![], vec![0, 1, 1, 0], 1);
    assert_eq!(eval_to_u8(&g), 9);
    let g = multi(vec![gate_multi::Node { op: gate_multi::Operation::NOT, in_a: 0, in_b: 0 }], vec![0, 1, 1, 0], 1);
    assert_eq!(eval_to_u8(&g), 9);
    assert_eq!(constant_error(&g), (9u8 ^ TARGET_CONSTANT).count_ones());

    let silent = multi(vec![], vec![], 3);
    assert_eq!(get_all_outputs(&silent), vec![0; 7]);
    let digits = [3u8, 1, 4, 1, 5, 9, 2];
    let expected: u32 = digits.iter().map(|d| d.count_ones()).sum();
    assert_eq!(pi_error(&silent), expected);
    // Echoing the position: outputs are the three input bits.
    let echo = multi(vec![], vec![0, 1, 2], 3);
    assert_eq!(get_all_outputs(&echo), vec![0, 1, 2, 3, 4, 5, 6]);
    let expected: u32 = digits.iter().enumerate().map(|(i, d)| ((i as u8) ^ d).count_ones()).sum();
    assert_eq!(pi_error(&echo), expected);
}

#[test]
fn multi_full_rate_mutation_redraws_every_output() {
    let mut rng = ChaCha8Rng::seed_from_u64(23);
    let mut g = gate_multi::Genome::new_random(3, 20, 6, &mut rng);
    for o in g.outputs.iter_mut() {
        *o = 500;
    }
    let before = g.nodes.clone();
    g.mutate(1, 1, &mut rng);
    assert!(g.outputs.iter().all(|&o| o < 23));
    for (b, a) in before.iter().zip(g.nodes.iter()) {
        let changed = (b.op != a.op) as u32 + (b.in_a != a.in_a) as u32 + (b.in_b != a.in_b) as u32;
        assert!(changed <= 1);
    }
}

#[test]
fn universal_full_rate_mutation_redraws_the_output() {
    let mut rng = ChaCha8Rng::seed_from_u64(29);
    let mut g = UGenome::new_random(6, 40, &mut rng);
    g.output_node = 9999;
    let before = g.nodes.clone();
    g.mutate(1, 1, &mut rng);
    assert!(g.output_node < 46);
    for (i, (b, a)) in before.iter().zip(g.nodes.iter()).enumerate() {
        let changed = (b.table != a.table) as u32 + (b.in_a != a.in_a) as u32 + (b.in_b != a.in_b) as u32;
        assert!(changed <= 1);
        assert!(a.table < 16 && (a.in_a as usize) < 6 + i && (a.in_b as usize) < 6 + i);
    }
}

#[test]
fn active_genome_evaluates_alike_and_is_its_own_active_genome() {
    let mut rng = ChaCha8Rng::seed_from_u64(43);
    for _ in 0..5 {
        let g = UGenome::new_random(5, 60, &mut rng);
        let a = g.get_active_genome();
        let aa = a.get_active_genome();
        assert_eq!(aa.output_node, a.output_node);
        assert_eq!(aa.nodes.len(), a.nodes.len());
        for (x, y) in aa.nodes.iter().zip(a.nodes.iter()) {
            assert_eq!((x.table, x.in_a, x.in_b), (y.table, y.in_a, y.in_b));
        }
        assert!(a.output_node < 5 + a.nodes.len());
        for (i, n) in a.nodes.iter().enumerate() {
            assert!((n.in_a as usize) < 5 + i && (n.in_b as usize) < 5 + i);
        }
        for bits in 0..32u32 {
            let inputs: Vec<bool> = (0..5).map(|i| (bits >> i) & 1 == 1).collect();
            assert_eq!(a.eval(&inputs), g.eval(&inputs));
        }
    }
}

#[test]
fn byte_round_trip() {
    for n in 0..=255u8 {
        assert_eq!(bools_to_u8(&u8_to_bool_array(n, 8)), n);
    }
    assert_eq!(bools_to_u8(&[false, true, false, true, false, true]), 42);
}
