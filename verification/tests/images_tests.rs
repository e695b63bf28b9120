use genetic_logic::dag::{count_marked, mark_active};
use genetic_logic::elements::{Element, FieldType, MetalType};
use genetic_logic::gate::{Genome, Node, Operation};
use genetic_logic::gate_universal::{Genome as UGenome, UniversalNode};
use genetic_logic::gpu_pack::{op_code, pack_bits, pack_gate_genomes, pack_inputs, pack_universal_batch};
use genetic_logic::inputs::{PrecomputedInputs, NUM_CHUNKS};
use genetic_logic::shapes::{pixel_classes, pixel_errors, PIXEL_BLANK, PIXEL_EXTRA, PIXEL_HIT, PIXEL_MISSED};
use genetic_logic::targets::{Target, TARGET_WORDS};

fn pixel(t: &Target, g: usize) -> bool {
    (t.expected_output[g / 32] >> (g % 32)) & 1 == 1
}

#[test]
fn checkerboard_squares() {
    let t = Target::checkerboard(32);
    assert_eq!(t.expected_output.len(), TARGET_WORDS);
    for &(x, y) in &[(0usize, 0usize), (31, 31), (32, 0), (0, 32), (32, 32), (255, 255), (100, 200)] {
        let g = y * 256 + x;
        assert_eq!(pixel(&t, g), (x / 32) % 2 == (y / 32) % 2, "pixel ({}, {})", x, y);
    }
    // One pixel squares alternate along a row.
    let fine = Target::checkerboard(1);
    assert_eq!(fine.expected_output[0], 0x5555_5555);
    assert_eq!(fine.expected_output[8], 0xAAAA_AAAA);
    // A square as large as the image is all black.
    let whole = Target::checkerboard(256);
    assert!(whole.expected_output.iter().all(|&w| w == u32::MAX));
}

#[test]
fn coordinate_words() {
    let inputs = PrecomputedInputs::new();
    assert_eq!(inputs.x_bits.len(), NUM_CHUNKS);
    assert_eq!(inputs.y_bits.len(), NUM_CHUNKS);
    for &c in &[0usize, 1, 3, 517, 1023] {
        for i in 0..64usize {
            let g = c * 64 + i;
            let (x, y) = (g % 256, g / 256);
            for b in 0..8 {
                assert_eq!((inputs.x_bits[c][b] >> i) & 1, ((x >> b) & 1) as u64);
                assert_eq!((inputs.y_bits[c][b] >> i) & 1, ((y >> b) & 1) as u64);
            }
        }
    }
    // Chunk 0 holds x = 0..63 on row 0.
    assert_eq!(inputs.x_bits[0][0], 0xAAAA_AAAA_AAAA_AAAA);
    assert_eq!(inputs.y_bits[0][0], 0);
}

#[test]
fn device_inputs_split_each_word() {
    let inputs = PrecomputedInputs::new();
    let words = pack_inputs(&inputs);
    assert_eq!(words.len(), NUM_CHUNKS * 34);
    for &c in &[0usize, 9, 1023] {
        let w = &words[c * 34..c * 34 + 34];
        for b in 0..8 {
            assert_eq!(w[b], inputs.x_bits[c][b] as u32);
            assert_eq!(w[8 + b], inputs.y_bits[c][b] as u32);
            assert_eq!(w[17 + b], (inputs.x_bits[c][b] >> 32) as u32);
            assert_eq!(w[25 + b], (inputs.y_bits[c][b] >> 32) as u32);
        }
        assert_eq!(w[16], u32::MAX);
        assert_eq!(w[33], u32::MAX);
    }
}

#[test]
fn device_genome_records() {
    let g1 = Genome {
        num_inputs: 2,
        nodes: vec![Node { op: Operation::NOR, in_a: 0, in_b: 1 }, Node { op: Operation::WIRE, in_a: 2, in_b: 0 }],
        output_node_idx: 3,
    };
    let g2 = Genome { num_inputs: 2, nodes: vec![Node { op: Operation::NOT, in_a: 1, in_b: 1 }], output_node_idx: 2 };
    let (nodes, infos) = pack_gate_genomes(&vec![g1, g2]);
    assert_eq!(nodes, vec![4, 0, 1, 0, 6, 2, 0, 0, 5, 1, 1, 0]);
    assert_eq!(infos, vec![3, 0, 0, 0, 2, 0, 0, 0]);
    assert_eq!(op_code(Operation::AND), 0);
    assert_eq!(op_code(Operation::NAND), 3);
}

#[test]
fn bit_strings_pack_least_significant_first() {
    assert_eq!(pack_bits(&vec![]), Vec::<u32>::new());
    assert_eq!(pack_bits(&vec![true, false, true]), vec![5]);
    let mut bits = vec![false; 33];
    bits[31] = true;
    bits[32] = true;
    assert_eq!(pack_bits(&bits), vec![1 << 31, 1]);
    assert_eq!(pack_bits(&vec![true; 64]), vec![u32::MAX, u32::MAX]);
}

#[test]
fn device_quine_batch() {
    let g1 = UGenome { num_inputs: 2, nodes: vec![UniversalNode { table: 6, in_a: 0, in_b: 1 }], output_node: 2 };
    let g2 = UGenome { num_inputs: 2, nodes: vec![], output_node: 1 };
    let t1 = vec![true; 40];
    let t2 = vec![false, true];
    let (nodes, targets, infos) = pack_universal_batch(&vec![g1, g2], &vec![t1, t2]);
    assert_eq!(nodes.len(), 2 * 100 * 4);
    assert_eq!(&nodes[0..4], &[6, 0, 1, 0]);
    assert!(nodes[4..].iter().all(|&w| w == 0));
    assert_eq!(targets, vec![u32::MAX, 0xFF, 2]);
    assert_eq!(infos, vec![2, 0, 40, 0, 1, 64, 2, 0]);
}

#[test]
fn active_marking_follows_reads() {
    // Two inputs; node 0 reads inputs, node 1 reads node 0, node 2 unused.
    let edges = vec![(0usize, 1usize), (2, 2), (0, 1)];
    let mask = mark_active(2, &edges, 3);
    assert_eq!(mask, vec![true, true, false]);
    assert_eq!(count_marked(&mask), 2);
    let none = mark_active(2, &edges, 1);
    assert_eq!(count_marked(&none), 0);
}

#[test]
fn elements() {
    assert_eq!(Element::Silicon.atomic_number(), 14);
    assert_eq!(Element::Tellurium.atomic_number(), 52);
    assert_eq!(Element::Boron.valence_electrons(), 3);
    assert_eq!(Element::Germanium.valence_electrons(), 4);
    assert_eq!(Element::Arsenic.valence_electrons(), 5);
    assert_eq!(Element::Selenium.valence_electrons(), 6);
    assert_eq!(Element::Zinc.valence_electrons(), 2);
    assert_ne!(MetalType::Iron, MetalType::Tin);
    assert_eq!(FieldType::Higgs, FieldType::Higgs);
}

fn wire_genome(source: usize) -> Genome {
    Genome { num_inputs: 17, nodes: vec![Node { op: Operation::WIRE, in_a: source, in_b: source }], output_node_idx: 17 }
}

#[test]
fn difference_image_classes() {
    let inputs = PrecomputedInputs::new();
    let target = Target::checkerboard(32);
    // All black: hits where the target is black, extra elsewhere.
    let all = wire_genome(16);
    let classes = pixel_classes(&all, &inputs, u64::MAX, &target.expected_output);
    assert_eq!(classes.len(), 65536);
    assert_eq!(classes[0], PIXEL_HIT);
    assert_eq!(classes[32], PIXEL_EXTRA);
    assert_eq!(pixel_errors(&all, &inputs, u64::MAX, &target.expected_output), 32768);
    // All white with shape word 0.
    assert_eq!(pixel_classes(&all, &inputs, 0, &target.expected_output)[0], PIXEL_MISSED);
    assert_eq!(pixel_classes(&all, &inputs, 0, &target.expected_output)[32], PIXEL_BLANK);
    // Black where x >= 128: the right half.
    let right = wire_genome(7);
    let classes = pixel_classes(&right, &inputs, u64::MAX, &target.expected_output);
    for &(x, y) in &[(0usize, 0usize), (127, 5), (128, 5), (255, 255), (200, 40)] {
        let p = y * 256 + x;
        let black = x >= 128;
        let want = pixel(&target, p);
        let expected = match (black, want) {
            (true, true) => PIXEL_HIT,
            (true, false) => PIXEL_EXTRA,
            (false, true) => PIXEL_MISSED,
            (false, false) => PIXEL_BLANK,
        };
        assert_eq!(classes[p], expected, "pixel ({}, {})", x, y);
    }
    assert_eq!(pixel_errors(&right, &inputs, u64::MAX, &target.expected_output), 32768);
}
