use genetic_logic::components::{
    build_half_adder, build_jump_test, build_ring_oscillator, build_shift_register_4, build_sr_latch,
    full_adder_circuit, half_adder_circuit, jump_chain_circuit, run_case, shift_register_circuit,
    sr_latch_circuit,
};
use genetic_logic::grid::{Cell, Grid, DIR_E, DIR_N, DIR_NE, DIR_NW, DIR_W};
use genetic_logic::ops::{JUMP_DIR_E, JUMP_DIR_W, OP_A, OP_AND, OP_JUMP, OP_NOR, OP_NOT_A, OP_VOID, OP_XOR};

#[test]
fn half_adder_truth_table() {
    let mut grid = half_adder_circuit();
    for a in 0..=1u32 {
        for b in 0..=1u32 {
            let out = run_case(&mut grid, 2, &[(1, 0, a), (2, 0, b)], &[(1, 1), (2, 1)]);
            assert_eq!(out, vec![a ^ b, a & b]);
        }
    }
}

#[test]
fn sr_latch_sequence() {
    let mut grid = sr_latch_circuit();
    grid.clear_states();
    let tests = [(1u32, 0u32, 0u32, 1u32), (0, 0, 0, 1), (0, 1, 1, 0), (0, 0, 1, 0), (1, 0, 0, 1)];
    for (r, s, expected_q, expected_q_bar) in tests {
        let inputs = vec![(0usize, 0usize, r), (1usize, 0usize, s)];
        for _ in 0..10 {
            grid.step_with_inputs(&inputs);
        }
        assert_eq!(grid.get_state(0, 1), expected_q);
        assert_eq!(grid.get_state(1, 1), expected_q_bar);
    }
}

#[test]
fn shift_register_moves_one_bit() {
    let mut grid = shift_register_circuit();
    grid.clear_states();
    let input_sequence = [1u32, 0, 0, 0, 0, 0, 0, 0];
    let expected_outputs = [
        [0, 0, 0, 0],
        [1, 0, 0, 0],
        [0, 1, 0, 0],
        [0, 0, 1, 0],
        [0, 0, 0, 1],
        [0, 0, 0, 0],
        [0, 0, 0, 0],
        [0, 0, 0, 0],
    ];
    for step in 0..8 {
        let bits: Vec<u32> = (1..=4).map(|x| grid.get_state(x, 0)).collect();
        assert_eq!(bits, expected_outputs[step].to_vec());
        grid.set_state(0, 0, input_sequence[step]);
        grid.step();
    }
}

#[test]
fn jump_wires_carry_a_signal() {
    let mut grid = jump_chain_circuit();
    grid.clear_states();
    let inputs = vec![(0usize, 0usize, 1u32)];
    let expected = [(0, 0, 0), (1, 0, 0), (1, 1, 0), (1, 1, 1)];
    for step in 0..4 {
        grid.step_with_inputs(&inputs);
        let got = (grid.get_state(3, 0), grid.get_state(3, 2), grid.get_state(7, 2));
        assert_eq!(got, expected[step]);
    }
}

#[test]
fn full_adder_truth_table() {
    let mut grid = full_adder_circuit();
    for a in 0..=1u32 {
        for b in 0..=1u32 {
            for cin in 0..=1u32 {
                let out = run_case(&mut grid, 8, &[(0, 0, a), (1, 0, b), (3, 0, cin)], &[(1, 3), (3, 6)]);
                let total = a + b + cin;
                assert_eq!(out, vec![total & 1, (total >> 1) & 1]);
            }
        }
    }
}

#[test]
fn builders_place_their_cells() {
    let mut grid = Grid::new(8, 8);
    build_half_adder(&mut grid, 2, 3);
    assert_eq!(grid.get(2, 3).op, OP_XOR);
    assert_eq!((grid.get(2, 3).dir_a, grid.get(2, 3).dir_b), (DIR_N, DIR_NE));
    assert_eq!(grid.get(3, 3).op, OP_AND);
    assert_eq!((grid.get(3, 3).dir_a, grid.get(3, 3).dir_b), (DIR_NW, DIR_N));

    let mut grid = Grid::new(8, 8);
    build_sr_latch(&mut grid, 1, 1);
    assert_eq!(grid.get(1, 1).op, OP_NOR);
    assert_eq!((grid.get(1, 1).dir_a, grid.get(1, 1).dir_b), (DIR_NE, DIR_E));
    assert_eq!(grid.get(2, 1).op, OP_NOR);
    assert_eq!((grid.get(2, 1).dir_a, grid.get(2, 1).dir_b), (DIR_NW, DIR_W));
    assert_eq!(grid.get(1, 2).op, OP_A);
    assert_eq!(grid.get(2, 2).op, OP_A);

    let mut grid = Grid::new(8, 2);
    build_shift_register_4(&mut grid, 1, 0);
    for x in 1..5 {
        assert_eq!(grid.get(x, 0).op, OP_A);
        assert_eq!(grid.get(x, 0).dir_a, DIR_W);
    }
    assert_eq!(grid.get(5, 0).op, OP_VOID);

    let mut grid = Grid::new(8, 8);
    build_ring_oscillator(&mut grid, 0, 0);
    assert_eq!(grid.get(0, 0).op, OP_NOT_A);
    assert_eq!(grid.get(0, 0).dir_a, DIR_E);
    assert_eq!((grid.get(1, 0).op, grid.get(1, 0).dir_a), (OP_NOT_A, DIR_E));
    assert_eq!((grid.get(2, 0).op, grid.get(2, 0).dir_a), (OP_NOT_A, DIR_E));

    let mut grid = Grid::new(8, 8);
    build_jump_test(&mut grid, 0, 2);
    let jump = grid.get(3, 2);
    assert_eq!(jump.op, OP_JUMP);
    assert_eq!(jump.dir_a, JUMP_DIR_W);
    assert_eq!(jump.dir_b, 3);
    assert_eq!(grid.get(3, 4).op, OP_JUMP);
    assert_eq!(grid.get(3, 5).op, OP_A);
    grid.clear_states();
    for _ in 0..3 {
        grid.step();
    }
    assert_eq!(grid.get_state(3, 5), 0);
    grid.step();
    assert_eq!(grid.get_state(3, 5), 1);
}

#[test]
fn grid_cells_and_neighbours() {
    let c = Cell::new(OP_XOR, 1, 2);
    assert_eq!((c.op, c.dir_a, c.dir_b, c.state), (OP_XOR, 1, 2, 0));
    let v = Cell::void();
    assert_eq!(v.op, OP_VOID);
    let j = Cell::jump(JUMP_DIR_E, 4);
    assert_eq!((j.op, j.dir_a, j.dir_b), (OP_JUMP, JUMP_DIR_E, 4));

    let mut grid = Grid::new(5, 4);
    assert_eq!(grid.cells.len(), 20);
    assert_eq!(grid.idx(2, 3), 17);
    assert_eq!(grid.neighbor(0, 0, 7), (4, 3));
    assert_eq!(grid.neighbor(4, 3, 3), (0, 0));
    assert_eq!(grid.jump_target(1, 1, JUMP_DIR_W, 3), (3, 1));
    grid.set_state(2, 2, 1);
    assert_eq!(grid.get_state(2, 2), 1);
    grid.get_mut(1, 1).op = OP_A;
    assert_eq!(grid.get(1, 1).op, OP_A);
}

#[test]
fn built_sr_latch_is_set_by_s_and_reset_by_r() {
    let mut g = Grid::new(4, 4);
    build_sr_latch(&mut g, 1, 1);
    g.clear_states();
    g.run_with_inputs(10, &[(1, 0, 1), (2, 0, 0)]);
    assert_eq!((g.get_state(1, 2), g.get_state(2, 2)), (1, 0));
    // Hold: both inputs low keeps Q = 1.
    g.run_with_inputs(5, &[(1, 0, 0), (2, 0, 0)]);
    assert_eq!((g.get_state(1, 2), g.get_state(2, 2)), (1, 0));
    // Reset.
    g.run_with_inputs(10, &[(1, 0, 0), (2, 0, 1)]);
    assert_eq!((g.get_state(1, 2), g.get_state(2, 2)), (0, 1));
    g.run_with_inputs(5, &[(1, 0, 0), (2, 0, 0)]);
    assert_eq!((g.get_state(1, 2), g.get_state(2, 2)), (0, 1));
}

#[test]
fn built_ring_oscillator_never_rests() {
    let mut g = Grid::new(3, 1);
    build_ring_oscillator(&mut g, 0, 0);
    g.set_state(0, 0, 0);
    g.set_state(1, 0, 1);
    g.set_state(2, 0, 0);
    g.step();
    assert_ne!((g.get_state(0, 0), g.get_state(1, 0), g.get_state(2, 0)), (0, 1, 0));
    let mut seen = Vec::new();
    for _ in 0..12 {
        let before = (g.get_state(0, 0), g.get_state(1, 0), g.get_state(2, 0));
        g.step();
        let after = (g.get_state(0, 0), g.get_state(1, 0), g.get_state(2, 0));
        assert_ne!(before, after);
        assert_eq!(after, (1 - before.1, 1 - before.2, 1 - before.0));
        seen.push(after);
    }
    // Period 6: the states come back after six steps.
    assert_eq!(seen[0], seen[6]);
}

#[test]
fn torus_neighbours_are_mutual() {
    let g = Grid::new(4, 3);
    assert_eq!(g.neighbor(0, 0, DIR_NW), (3, 2));
    for x in 0..4 {
        for y in 0..3 {
            for d in 0..8u32 {
                let (nx, ny) = g.neighbor(x, y, d);
                assert!(nx < 4 && ny < 3);
                assert_eq!(g.neighbor(nx, ny, (d + 4) % 8), (x, y));
            }
        }
    }
    let g = Grid::new(8, 4);
    assert_eq!(g.jump_target(7, 2, JUMP_DIR_W, 4), (3, 2));
    assert_eq!(g.jump_target(7, 2, 4, 4), (7, 2));
    assert_eq!(g.jump_target(7, 2, JUMP_DIR_E, 3), (2, 2));
}
