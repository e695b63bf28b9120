use genetic_logic::threshold::{ceil_log2, quine_threshold};
use genetic_logic::quine16::{count_io, quine_fitness, Cell as QCell};
use genetic_logic::quine_grid::{
    dir_arrow, get_neighbor_idx, organism_score, place_block, quine_output, trace_active, trace_levels, trace_organism,
    verify_quine, GateCell, IoConfig,
};

fn void_grid() -> Vec<GateCell> {
    vec![GateCell { op: 16, dir_a: 0, dir_b: 0 }; 256]
}

#[test]
fn neighbours_wrap_on_the_torus() {
    assert_eq!(get_neighbor_idx(0, 0), 240);
    assert_eq!(get_neighbor_idx(0, 7), 255);
    assert_eq!(get_neighbor_idx(17, 3), 34);
    assert_eq!(get_neighbor_idx(15, 2), 0);
    assert_eq!(get_neighbor_idx(255, 3), 0);
    assert_eq!(get_neighbor_idx(100, 9), 100);
    assert_eq!(get_neighbor_idx(102, 4), 118);
}

#[test]
fn arrows() {
    assert_eq!(dir_arrow(0), '↑');
    assert_eq!(dir_arrow(3), '↘');
    assert_eq!(dir_arrow(6), '←');
    assert_eq!(dir_arrow(8), '?');
}

#[test]
fn blocks_are_placed_row_by_row() {
    let cells: Vec<GateCell> = (0..16).map(|i| GateCell { op: i, dir_a: 1, dir_b: 2 }).collect();
    let grid = place_block(&cells, 4, 6, 6);
    assert_eq!(grid.len(), 256);
    assert_eq!(grid[102].op, 0);
    assert_eq!(grid[105].op, 3);
    assert_eq!(grid[118].op, 4);
    assert_eq!(grid[153].op, 15);
    assert_eq!(grid[101].op, 16);
    assert_eq!(grid[154].op, 16);
}

#[test]
fn tracing_stops_at_inputs_and_voids() {
    let mut grid = void_grid();
    // Output 150 reads North (134) and East (151); 134 reads North (118).
    grid[150] = GateCell { op: 6, dir_a: 0, dir_b: 2 };
    grid[134] = GateCell { op: 12, dir_a: 0, dir_b: 0 };
    grid[118] = GateCell { op: 12, dir_a: 0, dir_b: 0 };
    let inputs = vec![118usize];
    let outputs = vec![150usize];
    let active = trace_active(&grid, &inputs, &outputs);
    let set: Vec<usize> = (0..256).filter(|&i| active[i]).collect();
    assert_eq!(set, vec![118, 134, 150, 151]);
    // Fewer levels reach less.
    let one = trace_levels(&grid, &inputs, &outputs, 1);
    assert_eq!((0..256).filter(|&i| one[i]).collect::<Vec<_>>(), vec![150]);
    let none = trace_levels(&grid, &inputs, &outputs, 0);
    assert!(none.iter().all(|b| !b));
}

#[test]
fn organism_tracing() {
    let mut cells = vec![GateCell { op: 16, dir_a: 0, dir_b: 0 }; 64];
    // Organism cell (0,0) sits at grid (4,4) = 68 and reads West (67) twice.
    cells[0] = GateCell { op: 12, dir_a: 6, dir_b: 6 };
    let io = IoConfig { inputs: vec![200], outputs: vec![68] };
    let active = trace_organism(&cells, &io);
    assert!(active[68]);
    assert!(active[67]);
    assert_eq!(active.iter().filter(|b| **b).count(), 2);
}

#[test]
fn a_wire_grid_answers_its_inputs() {
    // Each output cell 150+b copies input 102+b through a wire column.
    let mut grid = void_grid();
    for b in 0..4 {
        for row in 7..10 {
            grid[row * 16 + 6 + b] = GateCell { op: 12, dir_a: 0, dir_b: 0 };
        }
    }
    for case in 0..16u32 {
        assert_eq!(quine_output(&grid, case), case);
    }
    let ops: Vec<u32> = (0..16u32).map(|i| if i == 5 { 16 } else { i }).collect();
    let (answers, matches) = verify_quine(&grid, &ops);
    assert_eq!(answers, (0..16u32).collect::<Vec<_>>());
    // On input 5 the cell is void and expects 0; the grid answers 5.
    assert_eq!(matches, 15);
}

#[test]
fn a_void_grid_answers_zero() {
    let grid = void_grid();
    let ops = vec![16u32; 16];
    let (answers, matches) = verify_quine(&grid, &ops);
    assert_eq!(answers, vec![0; 16]);
    assert_eq!(matches, 16);
}

#[test]
fn an_unfed_output_reads_zero() {
    // The output reads a void cell.
    let mut grid = void_grid();
    grid[150] = GateCell { op: 12, dir_a: 2, dir_b: 2 };
    assert_eq!(quine_output(&grid, 15), 0);
}

#[test]
fn cell_descriptors() {
    let c = QCell { op: 9, dir_a: 5, dir_b: 3, flags: 3 };
    assert!(c.is_input());
    assert!(c.is_output());
    assert_eq!(c.encode(), (9 << 8) | (5 << 5) | (3 << 2) | 2 | 1);
    let v = QCell { op: 16, dir_a: 15, dir_b: 8, flags: 2 };
    assert!(!v.is_input());
    assert!(v.is_output());
    assert_eq!(v.encode(), (7 << 5) | 1);
    assert_eq!(QCell { op: 16, dir_a: 0, dir_b: 0, flags: 0 }.encode(), 0);
    assert_eq!(QCell { op: 15, dir_a: 0, dir_b: 0, flags: 0 }.encode(), 15 << 8);
    assert_eq!(QCell { op: 17, dir_a: 0, dir_b: 0, flags: 0 }.encode(), 15 << 8);
    assert_eq!(QCell { op: 40, dir_a: 1, dir_b: 0, flags: 1 }.encode(), (15 << 8) | (1 << 5) | 2);
}

fn pack_answers(answers: &[u32]) -> Vec<u32> {
    let mut words = vec![0u32; 96];
    for (c, &a) in answers.iter().enumerate() {
        for k in 0..12 {
            if (a >> k) & 1 == 1 {
                let j = c * 12 + k;
                words[j / 32] |= 1 << (j % 32);
            }
        }
    }
    words
}

#[test]
fn fitness_of_a_perfect_and_a_flawed_quine() {
    let cells: Vec<QCell> = (0..256u32)
        .map(|i| QCell { op: i % 17, dir_a: i % 8, dir_b: (i / 8) % 8, flags: i % 4 })
        .collect();
    let answers: Vec<u32> = cells.iter().map(|c| c.encode()).collect();
    let words = pack_answers(&answers);
    assert_eq!(quine_fitness(&cells, &words), (256, 3072));

    let mut wrong = answers.clone();
    wrong[2] ^= 0b101;
    wrong[255] = 0;
    let words = pack_answers(&wrong);
    let lost = answers[255].count_ones() as usize;
    assert_eq!(quine_fitness(&cells, &words), (254, 3072 - 2 - lost));
}

#[test]
fn io_counts() {
    let cells: Vec<QCell> = (0..256u32).map(|i| QCell { op: 0, dir_a: 0, dir_b: 0, flags: i % 4 }).collect();
    assert_eq!(count_io(&cells), (128, 128));
    assert_eq!(count_io(&Vec::new()), (0, 0));
}

#[test]
fn organism_scores_read_nibbles() {
    let mut cells = vec![GateCell { op: 16, dir_a: 0, dir_b: 0 }; 64];
    cells[0].op = 3;
    cells[9].op = 12;
    cells[10].op = 16;
    let mut active = vec![false; 256];
    // Organism cells 0, 9 and 10 sit at grid (4,4), (5,5) and (6,5).
    active[68] = true;
    active[85] = true;
    active[86] = true;
    let r0 = 0x0000_0003u32;
    let r1 = 0x0000_00C7u32;
    // Cell 0 answers 3 (match), cell 9 answers 0xC (match), cell 10 answers 0 (void: match).
    assert_eq!(organism_score(&cells, &active, r0, r1), (3, 3));
    let r1 = 0x0000_0C0Cu32;
    // Cell 9 answers 0 (no match), cell 10 answers 0xC (no match).
    assert_eq!(organism_score(&cells, &active, r0, r1), (3, 1));
}

#[test]
fn later_organism_cells_read_zero() {
    let mut cells = vec![GateCell { op: 16, dir_a: 0, dir_b: 0 }; 64];
    cells[20].op = 0;
    cells[21].op = 5;
    let mut active = vec![false; 256];
    // Organism cells 20 and 21 sit at grid (8,6) and (9,6).
    active[6 * 16 + 8] = true;
    active[6 * 16 + 9] = true;
    assert_eq!(organism_score(&cells, &active, u32::MAX, u32::MAX), (2, 1));
}

#[test]
fn hidden_quine_core_answers_a_constant() {
    let data: [(u32, u32, u32); 16] = [
        (0x0, 5, 5), (0x10, 4, 3), (0x10, 1, 2), (0x10, 6, 7),
        (0x1, 2, 3), (0x10, 3, 3), (0xB, 1, 6), (0x8, 1, 0),
        (0x0, 5, 1), (0x0, 7, 6), (0x0, 0, 7), (0x0, 2, 1),
        (0x5, 2, 1), (0x2, 1, 6), (0x0, 3, 7), (0x2, 6, 4),
    ];
    let cells: Vec<GateCell> = data.iter().map(|&(op, dir_a, dir_b)| GateCell { op, dir_a, dir_b }).collect();
    let grid = place_block(&cells, 4, 6, 6);
    let ops: Vec<u32> = data.iter().map(|&(op, _, _)| op).collect();
    let (answers, matches) = verify_quine(&grid, &ops);
    // The core outputs the constant 3 and matches none of its cells.
    assert_eq!(answers, vec![3; 16]);
    assert_eq!(matches, 0);
}

#[test]
fn ceil_log2_and_quine_thresholds() {
    assert_eq!(ceil_log2(0), 0);
    assert_eq!(ceil_log2(1), 0);
    assert_eq!(ceil_log2(2), 1);
    assert_eq!(ceil_log2(3), 2);
    assert_eq!(ceil_log2(1024), 10);
    assert_eq!(ceil_log2(1025), 11);
    assert_eq!(ceil_log2(1 << 63), 63);
    // One node: with k = 3 the 4 values need 2-bit indices, 10 bits > 8;
    // with k = 4 the 5 values need 3-bit indices, 13 bits <= 16.
    assert_eq!(quine_threshold(1), (4, 3, 13));
    // 50 nodes: k = 9 gives ptr 6, 50 * 16 + 6 = 806 > 512; k = 10 gives 1024 >= 806.
    assert_eq!(quine_threshold(50), (10, 6, 806));
    for n in [1u64, 7, 50, 300, 1000] {
        let (k, p, bits) = quine_threshold(n);
        assert!((1u64 << k) >= bits);
        assert_eq!(bits, n * (4 + 2 * p) + p);
        if k > 1 {
            let q = ceil_log2(k - 1 + n) as u64;
            assert!((1u64 << (k - 1)) < n * (4 + 2 * q) + q);
        }
    }
}

#[test]
fn torus16_neighbours_are_mutual() {
    assert_eq!(get_neighbor_idx(150, 0), 134);
    for idx in 0..256i32 {
        for d in 0..8u32 {
            let n = get_neighbor_idx(idx, d);
            assert!(n < 256);
            assert_eq!(get_neighbor_idx(n as i32, (d + 4) % 8), idx as usize);
        }
        assert_eq!(get_neighbor_idx(idx, 8), idx as usize);
    }
}
