use genetic_logic::gate::{Genome, Node, Operation};
use rand::SeedableRng;
use rand_chacha::ChaCha8Rng;

fn sample_genome() -> Genome {
    // values: 0 = a, 1 = b, 2 = a AND b, 3 = a XOR b (unused), 4 = NOT v2, 5 = v4 OR b
    Genome {
        num_inputs: 2,
        nodes: vec![
            Node { op: Operation::AND, in_a: 0, in_b: 1 },
            Node { op: Operation::XOR, in_a: 0, in_b: 1 },
            Node { op: Operation::NOT, in_a: 2, in_b: 0 },
            Node { op: Operation::OR, in_a: 4, in_b: 1 },
        ],
        output_node_idx: 5,
    }
}

#[test]
fn operation_eval_is_bitwise() {
    let a = 0b1100u64;
    let b = 0b1010u64;
    assert_eq!(Operation::AND.eval(a, b), 0b1000);
    assert_eq!(Operation::OR.eval(a, b), 0b1110);
    assert_eq!(Operation::XOR.eval(a, b), 0b0110);
    assert_eq!(Operation::NAND.eval(a, b), !0b1000u64);
    assert_eq!(Operation::NOR.eval(a, b), !0b1110u64);
    assert_eq!(Operation::NOT.eval(a, b), !a);
    assert_eq!(Operation::WIRE.eval(a, b), a);
}

#[test]
fn genome_eval_follows_the_nodes() {
    let g = sample_genome();
    let mut buffer = Vec::new();
    let a = 0b1100u64;
    let b = 0b1010u64;
    let out = g.eval(&[a, b], &mut buffer);
    assert_eq!(out, !(a & b) | b);
    assert_eq!(buffer.len(), 6);
    assert_eq!(buffer[3], a ^ b);
}

#[test]
fn active_count_and_compact() {
    let g = sample_genome();
    assert_eq!(g.active_node_count(), 3);
    let c = g.compact();
    assert_eq!(c.num_inputs, 2);
    assert_eq!(c.nodes.len(), 3);
    assert_eq!(c.output_node_idx, 4);
    assert_eq!(c.nodes[1].in_a, 2);
    assert_eq!(c.nodes[2].in_a, 3);
    let mut b1 = Vec::new();
    let mut b2 = Vec::new();
    for (x, y) in [(0u64, 0u64), (u64::MAX, 0), (0x0f0f, 0x3333), (12345, 67890)] {
        assert_eq!(g.eval(&[x, y], &mut b1), c.eval(&[x, y], &mut b2));
    }
}

#[test]
fn compact_of_an_input_output_has_no_nodes() {
    let mut g = sample_genome();
    g.output_node_idx = 1;
    assert_eq!(g.active_node_count(), 0);
    let c = g.compact();
    assert_eq!(c.nodes.len(), 0);
    assert_eq!(c.output_node_idx, 1);
}

#[test]
fn merge_outputs_the_second_genome() {
    let first = sample_genome();
    let second = Genome {
        num_inputs: 2,
        nodes: vec![Node { op: Operation::XOR, in_a: 0, in_b: 1 }, Node { op: Operation::NOT, in_a: 2, in_b: 2 }],
        output_node_idx: 3,
    };
    let m = first.merge(&second);
    assert_eq!(m.nodes.len(), 6);
    assert_eq!(m.output_node_idx, 7);
    assert_eq!(m.nodes[5].in_a, 6);
    let mut b1 = Vec::new();
    let mut b2 = Vec::new();
    for (x, y) in [(0u64, 0u64), (0xff00, 0x0ff0), (u64::MAX, 1)] {
        assert_eq!(m.eval(&[x, y], &mut b1), second.eval(&[x, y], &mut b2));
    }
}

#[test]
fn random_genomes_read_backwards() {
    let mut rng = ChaCha8Rng::seed_from_u64(7);
    let g = Genome::new_random(17, 600, &mut rng);
    assert_eq!(g.num_inputs, 17);
    assert_eq!(g.nodes.len(), 600);
    assert!(g.output_node_idx < 617);
    for (i, n) in g.nodes.iter().enumerate() {
        assert!(n.in_a < 17 + i);
        assert!(n.in_b < 17 + i);
    }
    let mut again = ChaCha8Rng::seed_from_u64(7);
    let h = Genome::new_random(17, 600, &mut again);
    assert_eq!(h.output_node_idx, g.output_node_idx);
    assert_eq!(h.nodes[599].in_a, g.nodes[599].in_a);
}

#[test]
fn mutation_keeps_the_genome_well_formed() {
    let mut rng = ChaCha8Rng::seed_from_u64(11);
    let mut g = Genome::new_random(5, 50, &mut rng);
    let before: Vec<(usize, usize)> = g.nodes.iter().map(|n| (n.in_a, n.in_b)).collect();
    let out_before = g.output_node_idx;
    g.mutate(0, 1, &mut rng);
    let after: Vec<(usize, usize)> = g.nodes.iter().map(|n| (n.in_a, n.in_b)).collect();
    assert_eq!(before, after);
    assert_eq!(g.output_node_idx, out_before);

    g.mutate(1, 1, &mut rng);
    assert_eq!(g.nodes.len(), 50);
    assert!(g.output_node_idx < 55);
    for (i, n) in g.nodes.iter().enumerate() {
        assert!(n.in_a < 5 + i);
        assert!(n.in_b < 5 + i);
    }
}

#[test]
fn operation_from_index() {
    assert_eq!(Operation::from_index(0), Operation::AND);
    assert_eq!(Operation::from_index(5), Operation::NOT);
    assert_eq!(Operation::from_index(6), Operation::WIRE);
    let mut rng = ChaCha8Rng::seed_from_u64(3);
    for _ in 0..50 {
        let _ = Operation::random(&mut rng);
    }
}

#[test]
fn full_rate_mutation_redraws_the_output() {
    let mut rng = ChaCha8Rng::seed_from_u64(21);
    let mut g = Genome::new_random(4, 30, &mut rng);
    g.output_node_idx = 1000;
    let before = g.nodes.clone();
    g.mutate(1, 1, &mut rng);
    assert!(g.output_node_idx < 34);
    for (i, (b, a)) in before.iter().zip(g.nodes.iter()).enumerate() {
        let changed = (b.op != a.op) as u32 + (b.in_a != a.in_a) as u32 + (b.in_b != a.in_b) as u32;
        assert!(changed <= 1);
        assert!(a.in_a < 4 + i && a.in_b < 4 + i);
    }
}

#[test]
fn compacting_twice_changes_nothing() {
    let mut rng = ChaCha8Rng::seed_from_u64(41);
    for _ in 0..5 {
        let g = Genome::new_random(6, 80, &mut rng);
        let c = g.compact();
        let cc = c.compact();
        assert_eq!(cc.num_inputs, c.num_inputs);
        assert_eq!(cc.output_node_idx, c.output_node_idx);
        assert_eq!(cc.nodes.len(), c.nodes.len());
        for (a, b) in cc.nodes.iter().zip(c.nodes.iter()) {
            assert_eq!((a.op, a.in_a, a.in_b), (b.op, b.in_a, b.in_b));
        }
        assert_eq!(c.active_node_count(), c.nodes.len());
        let inputs = [0x0123_4567_89ab_cdefu64, 0xffff_0000_ffff_0000, 0xaaaa_aaaa_5555_5555, 7, 0, u64::MAX];
        let mut b1 = Vec::new();
        let mut b2 = Vec::new();
        assert_eq!(c.eval(&inputs, &mut b1), g.eval(&inputs, &mut b2));
    }
}
