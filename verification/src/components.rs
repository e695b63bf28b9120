//! Logic components laid out on a `Grid`, and the circuits the component
//! harness exercises.
use vstd::prelude::*;
use crate::ops::{
    OP_XOR, OP_AND, OP_NOR, OP_A, OP_OR, OP_TRUE, OP_NOT_A, JUMP_DIR_N, JUMP_DIR_W,
    gate_output, lemma_named_gates,
};
use crate::grid::{
    Cell, Grid, Input, DIR_N, DIR_NE, DIR_E, DIR_W, DIR_NW, run_cells, cleared, with_state, jumps_fit,
    inputs_small, inputs_in_range, states_small, lemma_small_states_run, step_cells, advance, apply_inputs,
    next_state, neighbor_spec, state_at, wrap_spec,
};

verus! {


/// A half adder at `(x, y)`: Sum = XOR of North and NorthEast at `(x, y)`,
/// Carry = AND of NorthWest and North at `(x + 1, y)`.
pub fn build_half_adder(grid: &mut Grid, x: usize, y: usize)
    requires
        y * old(grid).width + x + 1 < old(grid).cells@.len(),
    ensures
        final(grid).width == old(grid).width,
        final(grid).height == old(grid).height,
        final(grid).cells@ == old(grid).cells@.update(
            y * old(grid).width + x,
            Cell { op: OP_XOR, dir_a: DIR_N, dir_b: DIR_NE, state: 0 },
        ).update(y * old(grid).width + x + 1, Cell { op: OP_AND, dir_a: DIR_NW, dir_b: DIR_N, state: 0 }),
{
    proof {
        assert(grid.cells@.len() == grid.cells.len());
        assert(0 <= y * grid.width) by (nonlinear_arith);
    }
    grid.set(x, y, Cell::new(OP_XOR, DIR_N, DIR_NE));
    grid.set(x + 1, y, Cell::new(OP_AND, DIR_NW, DIR_N));
}

/// An SR latch of cross-coupled NOR gates, with S read at `(x, y - 1)` and
/// R at `(x + 1, y - 1)`: Q = NOR(R, Q') at `(x, y)` reads NorthEast and East,
/// Q' = NOR(S, Q) at `(x + 1, y)` reads NorthWest and West, and output wires
/// below copy Q to `(x, y + 1)` and Q' to `(x + 1, y + 1)`. Setting S drives Q
/// to 1, setting R drives Q to 0.
pub fn build_sr_latch(grid: &mut Grid, x: usize, y: usize)
    requires
        old(grid).width > 0,
        (y + 1) * old(grid).width + x + 1 < old(grid).cells@.len(),
    ensures
        final(grid).width == old(grid).width,
        final(grid).height == old(grid).height,
        final(grid).cells@ == old(grid).cells@.update(
            y * old(grid).width + x,
            Cell { op: OP_NOR, dir_a: DIR_NE, dir_b: DIR_E, state: 0 },
        ).update(y * old(grid).width + x + 1, Cell { op: OP_NOR, dir_a: DIR_NW, dir_b: DIR_W, state: 0 }).update(
            (y + 1) * old(grid).width + x,
            Cell { op: OP_A, dir_a: DIR_N, dir_b: DIR_N, state: 0 },
        ).update((y + 1) * old(grid).width + x + 1, Cell { op: OP_A, dir_a: DIR_N, dir_b: DIR_N, state: 0 }),
{
    proof {
        assert(grid.cells@.len() == grid.cells.len());
        assert(0 <= y * grid.width <= (y + 1) * grid.width) by (nonlinear_arith);
        assert(y + 1 <= (y + 1) * grid.width) by (nonlinear_arith)
            requires grid.width > 0;
    }
    grid.set(x, y, Cell::new(OP_NOR, DIR_NE, DIR_E));
    grid.set(x + 1, y, Cell::new(OP_NOR, DIR_NW, DIR_W));
    grid.set(x, y + 1, Cell::new(OP_A, DIR_N, DIR_N));
    grid.set(x + 1, y + 1, Cell::new(OP_A, DIR_N, DIR_N));
}

/// Inputs of a latch built at `(x, y)`: S at `(x, y - 1)`, R at `(x + 1, y - 1)`.
pub open spec fn built_latch_inputs(x: usize, y: usize, s: u32, r: u32) -> Seq<Input> {
    seq![(x, (y - 1) as usize, s), ((x + 1) as usize, (y - 1) as usize, r)]
}

/// The cells of `build_sr_latch(_, x, y)` are in place in the `w` x `h` grid
/// `c`, with bit states at Q, Q' and their output wires.
pub open spec fn built_latch_layout(c: Seq<Cell>, w: usize, h: usize, x: usize, y: usize) -> bool {
    let q = y * w + x;
    let wq = (y + 1) * w + x;
    &&& c.len() == w * h
    &&& c[q].op == OP_NOR && c[q].dir_a == DIR_NE && c[q].dir_b == DIR_E
    &&& c[q + 1].op == OP_NOR && c[q + 1].dir_a == DIR_NW && c[q + 1].dir_b == DIR_W
    &&& c[wq].op == OP_A && c[wq].dir_a == DIR_N && c[wq].dir_b == DIR_N
    &&& c[wq + 1].op == OP_A && c[wq + 1].dir_a == DIR_N && c[wq + 1].dir_b == DIR_N
    &&& c[q].state <= 1 && c[q + 1].state <= 1 && c[wq].state <= 1 && c[wq + 1].state <= 1
}

/// The built latch with S holding `s` and R holding `r`.
pub open spec fn built_latch(c: Seq<Cell>, w: usize, h: usize, x: usize, y: usize, s: u32, r: u32) -> bool {
    &&& built_latch_layout(c, w, h, x, y)
    &&& c[(y - 1) * w + x].state == s
    &&& c[(y - 1) * w + x + 1].state == r
}

/// Bounds under which the latch built at `(x, y)` and its inputs lie inside a
/// `w` x `h` grid with no wrap-around, within the `i32` coordinates of a step.
pub open spec fn latch_fits(w: usize, h: usize, x: usize, y: usize) -> bool {
    1 <= y && y + 1 < h && x + 1 < w && w <= i32::MAX && h <= i32::MAX
}

/// One step of the built latch with S = `s` and R = `r` forced:
/// Q becomes NOR(R, Q'), Q' becomes NOR(S, Q), and the output wires copy the
/// previous Q and Q'.
pub proof fn lemma_built_latch_step(c: Seq<Cell>, w: usize, h: usize, x: usize, y: usize, s: u32, r: u32)
    requires
        s <= 1,
        r <= 1,
        latch_fits(w, h, x, y),
        built_latch(c, w, h, x, y, s, r),
    ensures
        ({
            let n = step_cells(c, w, h, built_latch_inputs(x, y, s, r));
            let q = y * w + x;
            let wq = (y + 1) * w + x;
            &&& built_latch(n, w, h, x, y, s, r)
            &&& n[q].state == 1 - (r | c[q + 1].state)
            &&& n[q + 1].state == 1 - (s | c[q].state)
            &&& n[wq].state == c[q].state
            &&& n[wq + 1].state == c[q + 1].state
        }),
{
    let q = y * w + x;
    let wq = (y + 1) * w + x;
    let si = (y - 1) * w + x;
    assert((y + 1) * w == y * w + w) by (nonlinear_arith);
    assert(y * w == (y - 1) * w + w) by (nonlinear_arith);
    assert(0 <= (y - 1) * w) by (nonlinear_arith) requires y >= 1;
    assert((y + 1) * w + w <= w * h) by (nonlinear_arith)
        requires y + 1 < h, w >= 0;
    vstd::arithmetic::div_mod::lemma_fundamental_div_mod_converse(q as int, w as int, y as int, x as int);
    vstd::arithmetic::div_mod::lemma_fundamental_div_mod_converse(q + 1, w as int, y as int, x + 1);
    vstd::arithmetic::div_mod::lemma_fundamental_div_mod_converse(wq as int, w as int, y + 1, x as int);
    vstd::arithmetic::div_mod::lemma_fundamental_div_mod_converse(wq + 1, w as int, y + 1, x + 1);
    assert((x as i32) as int == x);
    assert((y as i32) as int == y);
    assert(((x + 1) as usize as i32) as int == x + 1);
    assert(((y + 1) as usize as i32) as int == y + 1);
    vstd::arithmetic::div_mod::lemma_small_mod((x + 1) as nat, w as nat);
    vstd::arithmetic::div_mod::lemma_small_mod(x as nat, w as nat);
    vstd::arithmetic::div_mod::lemma_small_mod(y as nat, h as nat);
    vstd::arithmetic::div_mod::lemma_small_mod((y - 1) as nat, h as nat);
    assert(neighbor_spec(w, h, x, y, DIR_NE) == (x + 1, y - 1));
    assert(neighbor_spec(w, h, x, y, DIR_E) == (x + 1, y as int));
    assert(neighbor_spec(w, h, (x + 1) as usize, y, DIR_NW) == (x as int, y - 1));
    assert(neighbor_spec(w, h, (x + 1) as usize, y, DIR_W) == (x as int, y as int));
    assert(neighbor_spec(w, h, x, (y + 1) as usize, DIR_N) == (x as int, y as int));
    assert(neighbor_spec(w, h, (x + 1) as usize, (y + 1) as usize, DIR_N) == (x + 1, y as int));
    let sq = c[q as int].state;
    let sqb = c[q + 1].state;
    lemma_named_gates(r, sqb);
    lemma_named_gates(s, sq);
    lemma_named_gates(sq, sq);
    lemma_named_gates(sqb, sqb);
    lemma_bit_or();
    let adv = advance(c, w, h);
    assert(next_state(c, w, h, x, y) == 1 - (r | sqb));
    assert(next_state(c, w, h, (x + 1) as usize, y) == 1 - (s | sq));
    assert(next_state(c, w, h, x, (y + 1) as usize) == sq);
    assert(next_state(c, w, h, (x + 1) as usize, (y + 1) as usize) == sqb);
    let inp = built_latch_inputs(x, y, s, r);
    let c1 = apply_inputs(adv, w, inp.drop_last());
    assert(inp.drop_last().drop_last() =~= Seq::<Input>::empty());
    assert(apply_inputs(adv, w, inp.drop_last().drop_last()) == adv);
    assert(inp.drop_last().last() == (x, (y - 1) as usize, s));
    assert(c1 == adv.update(si as int, with_state(adv[si as int], s)));
    let n = apply_inputs(adv, w, inp);
    assert(n == c1.update(si + 1, with_state(c1[si + 1], r)));
    assert(n == step_cells(c, w, h, inp));
}

/// Forcing the inputs of the built latch on cells that hold it.
proof fn lemma_built_latch_force(c: Seq<Cell>, w: usize, h: usize, x: usize, y: usize, s: u32, r: u32)
    requires
        latch_fits(w, h, x, y),
        built_latch_layout(c, w, h, x, y),
    ensures
        built_latch(run_cells(c, w, h, built_latch_inputs(x, y, s, r), 0), w, h, x, y, s, r),
        ({
            let c0 = run_cells(c, w, h, built_latch_inputs(x, y, s, r), 0);
            let q = y * w + x;
            c0[q].state == c[q].state && c0[q + 1].state == c[q + 1].state
        }),
{
    let si = (y - 1) * w + x;
    assert(y * w == (y - 1) * w + w) by (nonlinear_arith);
    assert(0 <= (y - 1) * w) by (nonlinear_arith) requires y >= 1;
    assert((y + 1) * w == y * w + w) by (nonlinear_arith);
    assert((y + 1) * w + w <= w * h) by (nonlinear_arith)
        requires y + 1 < h, w >= 0;
    let inp = built_latch_inputs(x, y, s, r);
    let c1 = apply_inputs(c, w, inp.drop_last());
    assert(inp.drop_last().drop_last() =~= Seq::<Input>::empty());
    assert(apply_inputs(c, w, inp.drop_last().drop_last()) == c);
    assert(inp.drop_last().last() == (x, (y - 1) as usize, s));
    assert(c1 == c.update(si as int, with_state(c[si as int], s)));
    assert(apply_inputs(c, w, inp) == c1.update(si + 1, with_state(c1[si + 1], r)));
}

/// The built SR latch is set by S and reset by R: from any bit states of Q,
/// Q' and the output wires, three steps with S = 1, R = 0 leave Q = 1,
/// Q' = 0 on the gates and on the output wires, and three steps with S = 0,
/// R = 1 leave Q = 0, Q' = 1.
pub proof fn lemma_built_latch(c: Seq<Cell>, w: usize, h: usize, x: usize, y: usize)
    requires
        latch_fits(w, h, x, y),
        built_latch_layout(c, w, h, x, y),
    ensures
        ({
            let set = run_cells(c, w, h, built_latch_inputs(x, y, 1, 0), 3);
            let reset = run_cells(c, w, h, built_latch_inputs(x, y, 0, 1), 3);
            let q = y * w + x;
            let wq = (y + 1) * w + x;
            &&& set[q].state == 1 && set[q + 1].state == 0
            &&& set[wq].state == 1 && set[wq + 1].state == 0
            &&& reset[q].state == 0 && reset[q + 1].state == 1
            &&& reset[wq].state == 0 && reset[wq + 1].state == 1
        }),
{
    lemma_bit_or();
    let q = y * w + x;
    let si = built_latch_inputs(x, y, 1, 0);
    lemma_built_latch_force(c, w, h, x, y, 1, 0);
    let a0 = run_cells(c, w, h, si, 0);
    lemma_built_latch_step(a0, w, h, x, y, 1, 0);
    let a1 = run_cells(c, w, h, si, 1);
    assert(a1 == step_cells(a0, w, h, si));
    lemma_built_latch_step(a1, w, h, x, y, 1, 0);
    let a2 = run_cells(c, w, h, si, 2);
    assert(a2 == step_cells(a1, w, h, si));
    lemma_built_latch_step(a2, w, h, x, y, 1, 0);
    assert(run_cells(c, w, h, si, 3) == step_cells(a2, w, h, si));
    let ri = built_latch_inputs(x, y, 0, 1);
    lemma_built_latch_force(c, w, h, x, y, 0, 1);
    let b0 = run_cells(c, w, h, ri, 0);
    lemma_built_latch_step(b0, w, h, x, y, 0, 1);
    let b1 = run_cells(c, w, h, ri, 1);
    assert(b1 == step_cells(b0, w, h, ri));
    lemma_built_latch_step(b1, w, h, x, y, 0, 1);
    let b2 = run_cells(c, w, h, ri, 2);
    assert(b2 == step_cells(b1, w, h, ri));
    lemma_built_latch_step(b2, w, h, x, y, 0, 1);
    assert(run_cells(c, w, h, ri, 3) == step_cells(b2, w, h, ri));
}

/// Four cells `(x..x+4, y)` that each copy their West neighbour.
pub fn build_shift_register_4(grid: &mut Grid, x: usize, y: usize)
    requires
        y * old(grid).width + x + 3 < old(grid).cells@.len(),
    ensures
        final(grid).width == old(grid).width,
        final(grid).height == old(grid).height,
        final(grid).cells@.len() == old(grid).cells@.len(),
        forall|i: int|
            0 <= i < old(grid).cells@.len() ==> #[trigger] final(grid).cells@[i] == if y
                * old(grid).width + x <= i < y * old(grid).width + x + 4 {
                Cell { op: OP_A, dir_a: DIR_W, dir_b: DIR_W, state: 0 }
            } else {
                old(grid).cells@[i]
            },
{
    let ghost start = grid.cells@;
    proof {
        assert(grid.cells@.len() == grid.cells.len());
        assert(0 <= y * grid.width) by (nonlinear_arith);
    }
    let mut i: usize = 0;
    while i < 4
        invariant
            i <= 4,
            grid.width == old(grid).width,
            grid.height == old(grid).height,
            start == old(grid).cells@,
            y * grid.width + x + 3 < start.len(),
            0 <= y * grid.width,
            start.len() <= usize::MAX,
            grid.cells@.len() == start.len(),
            forall|k: int|
                0 <= k < start.len() ==> #[trigger] grid.cells@[k] == if y * grid.width + x <= k < y
                    * grid.width + x + i {
                    Cell { op: OP_A, dir_a: DIR_W, dir_b: DIR_W, state: 0 }
                } else {
                    start[k]
                },
        decreases 4 - i,
    {
        grid.set(x + i, y, Cell::new(OP_A, DIR_W, DIR_W));
        i = i + 1;
    }
}

/// A ring oscillator: three inverters in a row at `(x..x+3, y)`, each
/// inverting its East neighbour. On a grid three cells wide the third one's
/// East neighbour is the first across the wrap, which closes an odd loop of
/// inverters: such a ring has no resting state, every step changes it (see
/// `lemma_ring_oscillates`).
pub fn build_ring_oscillator(grid: &mut Grid, x: usize, y: usize)
    requires
        y * old(grid).width + x + 2 < old(grid).cells@.len(),
    ensures
        final(grid).width == old(grid).width,
        final(grid).height == old(grid).height,
        final(grid).cells@ == old(grid).cells@.update(
            y * old(grid).width + x,
            Cell { op: OP_NOT_A, dir_a: DIR_E, dir_b: DIR_E, state: 0 },
        ).update(y * old(grid).width + x + 1, Cell { op: OP_NOT_A, dir_a: DIR_E, dir_b: DIR_E, state: 0 }).update(
            y * old(grid).width + x + 2,
            Cell { op: OP_NOT_A, dir_a: DIR_E, dir_b: DIR_E, state: 0 },
        ),
{
    proof {
        assert(grid.cells@.len() == grid.cells.len());
        assert(0 <= y * grid.width) by (nonlinear_arith);
    }
    grid.set(x, y, Cell::new(OP_NOT_A, DIR_E, DIR_E));
    grid.set(x + 1, y, Cell::new(OP_NOT_A, DIR_E, DIR_E));
    grid.set(x + 2, y, Cell::new(OP_NOT_A, DIR_E, DIR_E));
}

/// Row `y` of the three-wide `c` holds the ring of `build_ring_oscillator(_,
/// 0, y)`, with bit states.
pub open spec fn ring_in_place(c: Seq<Cell>, h: usize, y: usize) -> bool {
    let i0 = y * 3;
    &&& c.len() == 3 * h
    &&& forall|i: int|
        i0 <= i < i0 + 3 ==> (#[trigger] c[i]).op == OP_NOT_A && c[i].dir_a == DIR_E && c[i].dir_b == DIR_E
            && c[i].state <= 1
}

/// The ring oscillates: on a grid three cells wide, in one step each
/// inverter of the ring takes the inverse of its East neighbour (the third
/// one that of the first, across the wrap), so the three states are never
/// left as they were.
pub proof fn lemma_ring_oscillates(c: Seq<Cell>, h: usize, y: usize)
    requires
        y < h,
        h <= i32::MAX,
        ring_in_place(c, h, y),
    ensures
        ({
            let n = step_cells(c, 3, h, Seq::empty());
            let i0 = y * 3;
            &&& n[i0].state == 1 - c[i0 + 1].state
            &&& n[i0 + 1].state == 1 - c[i0 + 2].state
            &&& n[i0 + 2].state == 1 - c[i0].state
            &&& (n[i0].state, n[i0 + 1].state, n[i0 + 2].state) != (c[i0].state, c[i0 + 1].state, c[i0
                + 2].state)
        }),
{
    let i0 = y * 3;
    assert(y * 3 + 3 <= 3 * h) by (nonlinear_arith)
        requires y < h;
    vstd::arithmetic::div_mod::lemma_fundamental_div_mod_converse(i0 as int, 3, y as int, 0);
    vstd::arithmetic::div_mod::lemma_fundamental_div_mod_converse(i0 + 1, 3, y as int, 1);
    vstd::arithmetic::div_mod::lemma_fundamental_div_mod_converse(i0 + 2, 3, y as int, 2);
    let n = step_cells(c, 3, h, Seq::empty());
    let adv = advance(c, 3, h);
    assert(n == adv);
    assert((y as i32) as int == y);
    vstd::arithmetic::div_mod::lemma_small_mod(y as nat, h as nat);
    assert(wrap_spec(0, 1, 3) == 1);
    assert(wrap_spec(1, 1, 3) == 2);
    assert(wrap_spec(2, 1, 3) == 0);
    assert(neighbor_spec(3, h, 0, y, DIR_E) == (1int, y as int));
    assert(neighbor_spec(3, h, 1, y, DIR_E) == (2int, y as int));
    assert(neighbor_spec(3, h, 2, y, DIR_E) == (0int, y as int));
    let s0 = c[i0 as int].state;
    let s1 = c[i0 + 1].state;
    let s2 = c[i0 + 2].state;
    assert(c[i0 as int].op == OP_NOT_A && c[i0 + 1].op == OP_NOT_A && c[i0 + 2].op == OP_NOT_A);
    lemma_named_gates(s1, s1);
    lemma_named_gates(s2, s2);
    lemma_named_gates(s0, s0);
    assert(next_state(c, 3, h, 0, y) == 1 - s1);
    assert(next_state(c, 3, h, 1, y) == 1 - s2);
    assert(next_state(c, 3, h, 2, y) == 1 - s0);
    assert(adv[i0 as int].state == 1 - s1);
    assert(adv[i0 + 1].state == 1 - s2);
    assert(adv[i0 + 2].state == 1 - s0);
}

/// A constant source at `(x, y)`, a JUMP reading it from three cells East, a
/// JUMP reading that from two cells South, and a wire below it.
pub fn build_jump_test(grid: &mut Grid, x: usize, y: usize)
    requires
        old(grid).width > 0,
        (y + 3) * old(grid).width + x + 3 < old(grid).cells@.len(),
    ensures
        final(grid).width == old(grid).width,
        final(grid).height == old(grid).height,
        final(grid).cells@ == old(grid).cells@.update(
            y * old(grid).width + x,
            Cell { op: OP_TRUE, dir_a: 0, dir_b: 0, state: 0 },
        ).update(
            y * old(grid).width + x + 3,
            Cell { op: crate::ops::OP_JUMP, dir_a: JUMP_DIR_W, dir_b: 3, state: 0 },
        ).update(
            (y + 2) * old(grid).width + x + 3,
            Cell { op: crate::ops::OP_JUMP, dir_a: JUMP_DIR_N, dir_b: 2, state: 0 },
        ).update((y + 3) * old(grid).width + x + 3, Cell { op: OP_A, dir_a: DIR_N, dir_b: DIR_N, state: 0 }),
{
    proof {
        assert(grid.cells@.len() == grid.cells.len());
        assert(0 <= y * grid.width <= (y + 2) * grid.width <= (y + 3) * grid.width) by (nonlinear_arith);
        assert(y + 3 <= (y + 3) * grid.width) by (nonlinear_arith)
            requires grid.width > 0;
    }
    grid.set(x, y, Cell::new(OP_TRUE, 0, 0));
    grid.set(x + 3, y, Cell::jump(JUMP_DIR_W, 3));
    grid.set(x + 3, y + 2, Cell::jump(JUMP_DIR_N, 2));
    grid.set(x + 3, y + 3, Cell::new(OP_A, DIR_N, DIR_N));
}

/// Every output position names a cell of a grid of width `w` with `len` cells.
pub open spec fn outputs_in_range(w: usize, len: int, outputs: Seq<(usize, usize)>) -> bool {
    forall|k: int| 0 <= k < outputs.len() ==> (#[trigger] outputs[k]).1 * w + outputs[k].0 < len
}

/// One harness case: clears every state, forces `inputs` once and then for
/// `steps` steps, and reads the states at `outputs`.
pub fn run_case(grid: &mut Grid, steps: usize, inputs: &[Input], outputs: &[(usize, usize)]) -> (r: Vec<u32>)
    requires
        old(grid).wf(),
        jumps_fit(old(grid).cells@, old(grid).width, old(grid).height),
        inputs_small(inputs@),
        inputs_in_range(old(grid).width, old(grid).cells@.len() as int, inputs@),
        outputs_in_range(old(grid).width, old(grid).cells@.len() as int, outputs@),
    ensures
        final(grid).width == old(grid).width,
        final(grid).height == old(grid).height,
        final(grid).cells@ == run_cells(
            cleared(old(grid).cells@),
            old(grid).width,
            old(grid).height,
            inputs@,
            steps as nat,
        ),
        r@.len() == outputs@.len(),
        forall|k: int|
            0 <= k < outputs@.len() ==> #[trigger] r@[k] == final(grid).cells@[outputs@[k].1 * old(
                grid,
            ).width + outputs@[k].0].state,
{
    let ghost start = grid.cells@;
    let w = grid.width;
    let h = grid.height;
    grid.clear_states();
    assert(grid.cells@ == cleared(start));
    proof {
        let c0 = cleared(start);
        assert(states_small(c0));
        assert forall|x: usize, y: usize|
            x < w && y < h && (#[trigger] c0[y * w + x]).op == crate::ops::OP_JUMP implies crate::grid::jump_fits(
            x,
            y,
            c0[y * w + x].dir_a,
            c0[y * w + x].dir_b,
        ) by {
            assert(0 <= y * w + x < w * h) by (nonlinear_arith)
                requires
                    x < w,
                    y < h,
            ;
            assert(start[y * w + x].op == crate::ops::OP_JUMP);
        }
        assert forall|t: nat| t < steps implies crate::grid::step_safe(
            #[trigger] run_cells(c0, w, h, inputs@, t),
            w,
            h,
        ) by {
            lemma_small_states_run(c0, w, h, inputs@, t);
        }
    }
    grid.run_with_inputs(steps, inputs);
    proof {
        lemma_small_states_run(cleared(start), w, h, inputs@, steps as nat);
    }
    let mut r: Vec<u32> = Vec::new();
    let mut k: usize = 0;
    while k < outputs.len()
        invariant
            grid.width == w,
            grid.cells@.len() == start.len(),
            outputs_in_range(w, start.len() as int, outputs@),
            k <= outputs@.len(),
            r@.len() == k,
            forall|q: int|
                0 <= q < k ==> #[trigger] r@[q] == grid.cells@[outputs@[q].1 * w + outputs@[q].0].state,
        decreases outputs@.len() - k,
    {
        let (x, y) = outputs[k];
        r.push(grid.get_state(x, y));
        k = k + 1;
    }
    r
}

/// Layout of the harness half adder on a 4x3 grid: A at (1,0), B at (2,0),
/// Sum = XOR(N, NE) at (1,1), Carry = AND(NW, N) at (2,1).
pub open spec fn half_adder_cells() -> Seq<Cell> {
    Seq::new(12, |i: int| Cell::void_spec()).update(
        5,
        Cell { op: OP_XOR, dir_a: DIR_N, dir_b: DIR_NE, state: 0 },
    ).update(6, Cell { op: OP_AND, dir_a: DIR_NW, dir_b: DIR_N, state: 0 })
}

pub fn half_adder_circuit() -> (g: Grid)
    ensures
        g.wf(),
        g.width == 4,
        g.height == 3,
        g.cells@ == half_adder_cells(),
{
    let mut grid = Grid::new(4, 3);
    grid.set(1, 1, Cell::new(OP_XOR, DIR_N, DIR_NE));
    grid.set(2, 1, Cell::new(OP_AND, DIR_NW, DIR_N));
    assert(grid.cells@ == half_adder_cells());
    grid
}

/// Inputs of the half adder for `a`, `b`.
pub open spec fn half_adder_inputs(a: u32, b: u32) -> Seq<Input> {
    seq![(1usize, 0usize, a), (2usize, 0usize, b)]
}

/// Same ops and directions as the half-adder layout, with A and B at the
/// input cells.
pub open spec fn half_adder_state(c: Seq<Cell>, a: u32, b: u32) -> bool {
    &&& c.len() == 12
    &&& forall|i: int| 0 <= i < 12 ==> (#[trigger] c[i]).op == half_adder_cells()[i].op
        && c[i].dir_a == half_adder_cells()[i].dir_a && c[i].dir_b == half_adder_cells()[i].dir_b
    &&& c[1].state == a
    &&& c[2].state == b
}

proof fn lemma_half_adder_step(c: Seq<Cell>, a: u32, b: u32)
    requires
        a <= 1,
        b <= 1,
        half_adder_state(c, a, b),
    ensures
        half_adder_state(step_cells(c, 4, 3, half_adder_inputs(a, b)), a, b),
        step_cells(c, 4, 3, half_adder_inputs(a, b))[5].state == a ^ b,
        step_cells(c, 4, 3, half_adder_inputs(a, b))[6].state == a & b,
{
    lemma_named_gates(a, b);
    let adv = advance(c, 4, 3);
    assert(wrap_spec(1, 0, 4) == 1);
    assert(wrap_spec(1, -1, 3) == 0);
    assert(wrap_spec(1, 1, 4) == 2);
    assert(wrap_spec(2, -1, 4) == 1);
    assert(wrap_spec(2, 0, 4) == 2);
    assert(5int % 4 == 1 && 5int / 4 == 1 && 6int % 4 == 2 && 6int / 4 == 1);
    assert(c[5].op == OP_XOR && c[5].dir_a == DIR_N && c[5].dir_b == DIR_NE);
    assert(c[6].op == OP_AND && c[6].dir_a == DIR_NW && c[6].dir_b == DIR_N);
    assert(next_state(c, 4, 3, 1, 1) == a ^ b);
    assert(next_state(c, 4, 3, 2, 1) == a & b);
    assert(adv[5].state == a ^ b);
    assert(adv[6].state == a & b);
    let inp = half_adder_inputs(a, b);
    let c1 = apply_inputs(adv, 4, inp.drop_last());
    assert(inp.drop_last().drop_last() =~= Seq::<Input>::empty());
    assert(apply_inputs(adv, 4, inp.drop_last().drop_last()) == adv);
    assert(inp.drop_last().last() == (1usize, 0usize, a));
    assert(c1 == adv.update(1, with_state(adv[1], a)));
    let c2 = apply_inputs(adv, 4, inp);
    assert(c2 == c1.update(2, with_state(c1[2], b)));
}

/// The harness half adder computes Sum = A XOR B and Carry = A AND B after
/// two steps, for every pair of input bits.
pub proof fn lemma_half_adder(a: u32, b: u32)
    requires
        a <= 1,
        b <= 1,
    ensures
        run_cells(cleared(half_adder_cells()), 4, 3, half_adder_inputs(a, b), 2)[5].state == a ^ b,
        run_cells(cleared(half_adder_cells()), 4, 3, half_adder_inputs(a, b), 2)[6].state == a & b,
{
    let c = cleared(half_adder_cells());
    let inp = half_adder_inputs(a, b);
    let c0 = run_cells(c, 4, 3, inp, 0);
    let c1 = apply_inputs(c, 4, inp.drop_last());
    assert(inp.drop_last().drop_last() =~= Seq::<Input>::empty());
    assert(apply_inputs(c, 4, inp.drop_last().drop_last()) == c);
    assert(inp.drop_last().last() == (1usize, 0usize, a));
    assert(c1 == c.update(1, with_state(c[1], a)));
    assert(c0 == c1.update(2, with_state(c1[2], b)));
    assert(half_adder_state(c0, a, b));
    lemma_half_adder_step(c0, a, b);
    let s1 = run_cells(c, 4, 3, inp, 1);
    assert(s1 == step_cells(c0, 4, 3, inp));
    lemma_half_adder_step(s1, a, b);
    assert(run_cells(c, 4, 3, inp, 2) == step_cells(s1, 4, 3, inp));
}

/// A fresh `w` x `h` grid of void cells.
pub open spec fn void_cells(n: nat) -> Seq<Cell> {
    Seq::new(n, |i: int| Cell::void_spec())
}

/// Layout of the harness SR latch on a 3x3 grid: R at (0,0), S at (1,0),
/// Q = NOR(N, E) at (0,1), Q' = NOR(W, N) at (1,1).
pub open spec fn sr_latch_cells() -> Seq<Cell> {
    void_cells(9).update(3, Cell { op: OP_NOR, dir_a: DIR_N, dir_b: DIR_E, state: 0 }).update(
        4,
        Cell { op: OP_NOR, dir_a: DIR_W, dir_b: DIR_N, state: 0 },
    )
}

pub fn sr_latch_circuit() -> (g: Grid)
    ensures
        g.wf(),
        g.width == 3,
        g.height == 3,
        g.cells@ == sr_latch_cells(),
{
    let mut grid = Grid::new(3, 3);
    grid.set(0, 1, Cell::new(OP_NOR, DIR_N, DIR_E));
    grid.set(1, 1, Cell::new(OP_NOR, DIR_W, DIR_N));
    assert(grid.cells@ == sr_latch_cells());
    grid
}

/// Inputs of the SR latch: R at (0,0), S at (1,0).
pub open spec fn sr_latch_inputs(r: u32, s: u32) -> Seq<Input> {
    seq![(0usize, 0usize, r), (1usize, 0usize, s)]
}

/// One step of the latch with `r` and `s` forced.
pub open spec fn latch_step(c: Seq<Cell>, r: u32, s: u32) -> Seq<Cell> {
    step_cells(c, 3, 3, sr_latch_inputs(r, s))
}

/// The latch layout, with bit states at R, S, Q (3) and Q' (4).
pub open spec fn latch_layout(c: Seq<Cell>) -> bool {
    &&& c.len() == 9
    &&& forall|i: int| 0 <= i < 9 ==> (#[trigger] c[i]).op == sr_latch_cells()[i].op
        && c[i].dir_a == sr_latch_cells()[i].dir_a && c[i].dir_b == sr_latch_cells()[i].dir_b
    &&& c[0].state <= 1
    &&& c[1].state <= 1
    &&& c[3].state <= 1
    &&& c[4].state <= 1
}

/// Or of bits is a bit, and or with 1 is 1.
proof fn lemma_bit_or()
    by (bit_vector)
    ensures
        forall|a: u32, b: u32| a <= 1 && b <= 1 ==> #[trigger] (a | b) <= 1,
        forall|a: u32| a <= 1 ==> #[trigger] (a | 1u32) == 1u32,
        forall|a: u32| a <= 1 ==> #[trigger] (1u32 | a) == 1u32,
        forall|a: u32| #[trigger] (0u32 | a) == a,
        forall|a: u32, b: u32| a <= 1 && b <= 1 ==> #[trigger] (a ^ b) <= 1,
        forall|a: u32, b: u32| a <= 1 && b <= 1 ==> #[trigger] (a & b) <= 1,
        forall|a: u32, b: u32, c: u32|
            a <= 1 && b <= 1 && c <= 1 ==> #[trigger] ((a ^ b) ^ c) == (a + b + c) % 2 && (((a ^ b) & c) | (a
                & b)) == (a + b + c) / 2,
{
}

proof fn lemma_sr_latch_step(c: Seq<Cell>, r: u32, s: u32)
    requires
        r <= 1,
        s <= 1,
        latch_layout(c),
    ensures
        latch_layout(latch_step(c, r, s)),
        latch_step(c, r, s)[0].state == r,
        latch_step(c, r, s)[1].state == s,
        latch_step(c, r, s)[3].state == 1 - (c[0].state | c[4].state),
        latch_step(c, r, s)[4].state == 1 - (c[3].state | c[1].state),
{
    lemma_named_gates(c[0].state, c[4].state);
    lemma_named_gates(c[3].state, c[1].state);
    let adv = advance(c, 3, 3);
    assert(wrap_spec(0, 0, 3) == 0);
    assert(wrap_spec(1, -1, 3) == 0);
    assert(wrap_spec(0, 1, 3) == 1);
    assert(wrap_spec(1, 0, 3) == 1);
    assert(wrap_spec(1, 1, 3) == 2);
    assert(wrap_spec(1, -1, 3) == 0);
    assert(3int % 3 == 0 && 3int / 3 == 1 && 4int % 3 == 1 && 4int / 3 == 1);
    assert(c[3].op == OP_NOR && c[3].dir_a == DIR_N && c[3].dir_b == DIR_E);
    assert(c[4].op == OP_NOR && c[4].dir_a == DIR_W && c[4].dir_b == DIR_N);
    assert(next_state(c, 3, 3, 0, 1) == 1 - (c[0].state | c[4].state));
    assert(next_state(c, 3, 3, 1, 1) == 1 - (c[3].state | c[1].state));
    assert(adv[3].state == 1 - (c[0].state | c[4].state));
    assert(adv[4].state == 1 - (c[3].state | c[1].state));
    lemma_bit_or();
    assert((c[0].state | c[4].state) <= 1);
    assert((c[3].state | c[1].state) <= 1);
    let inp = sr_latch_inputs(r, s);
    let c1 = apply_inputs(adv, 3, inp.drop_last());
    assert(inp.drop_last().drop_last() =~= Seq::<Input>::empty());
    assert(apply_inputs(adv, 3, inp.drop_last().drop_last()) == adv);
    assert(inp.drop_last().last() == (0usize, 0usize, r));
    assert(c1 == adv.update(0, with_state(adv[0], r)));
    let c2 = apply_inputs(adv, 3, inp);
    assert(c2 == c1.update(1, with_state(c1[1], s)));
}

/// The harness SR latch is a memory: three steps with S set (R clear) leave
/// Q = 1, Q' = 0 from any state, three steps with R set (S clear) leave
/// Q = 0, Q' = 1, and a step with both clear keeps either of those states.
pub proof fn lemma_sr_latch(c: Seq<Cell>)
    requires
        latch_layout(c),
    ensures
        ({
            let set = latch_step(latch_step(latch_step(c, 0, 1), 0, 1), 0, 1);
            set[3].state == 1 && set[4].state == 0 && set[0].state == 0
        }),
        ({
            let reset = latch_step(latch_step(latch_step(c, 1, 0), 1, 0), 1, 0);
            reset[3].state == 0 && reset[4].state == 1 && reset[1].state == 0
        }),
        c[3].state == 1 && c[4].state == 0 && c[0].state == 0 ==> latch_step(c, 0, 0)[3].state == 1
            && latch_step(c, 0, 0)[4].state == 0 && latch_step(c, 0, 0)[0].state == 0,
        c[3].state == 0 && c[4].state == 1 && c[1].state == 0 ==> latch_step(c, 0, 0)[3].state == 0
            && latch_step(c, 0, 0)[4].state == 1 && latch_step(c, 0, 0)[1].state == 0,
{
    lemma_sr_latch_step(c, 0, 1);
    let s1 = latch_step(c, 0, 1);
    lemma_sr_latch_step(s1, 0, 1);
    let s2 = latch_step(s1, 0, 1);
    lemma_sr_latch_step(s2, 0, 1);
    lemma_bit_or();
    assert((s1[3].state | 1u32) == 1u32);
    assert(s2[4].state == 0);
    assert((0u32 | 0u32) == 0u32);
    assert((s2[3].state | 1u32) == 1u32);
    lemma_sr_latch_step(c, 1, 0);
    let r1 = latch_step(c, 1, 0);
    lemma_sr_latch_step(r1, 1, 0);
    let r2 = latch_step(r1, 1, 0);
    lemma_sr_latch_step(r2, 1, 0);
    assert((1u32 | r1[4].state) == 1u32);
    assert(r2[3].state == 0);
    assert((1u32 | r2[4].state) == 1u32);
    assert((0u32 | 0u32) == 0u32);
    lemma_sr_latch_step(c, 0, 0);
}

/// Layout of the harness shift register on a 6x1 grid: input at (0,0),
/// cells 1..=4 copy their West neighbour.
pub open spec fn shift_register_cells() -> Seq<Cell> {
    Seq::new(
        6,
        |i: int|
            if 1 <= i <= 4 {
                Cell { op: OP_A, dir_a: DIR_W, dir_b: DIR_W, state: 0 }
            } else {
                Cell::void_spec()
            },
    )
}

pub fn shift_register_circuit() -> (g: Grid)
    ensures
        g.wf(),
        g.width == 6,
        g.height == 1,
        g.cells@ == shift_register_cells(),
{
    let mut grid = Grid::new(6, 1);
    let mut i: usize = 1;
    while i <= 4
        invariant
            1 <= i <= 5,
            grid.width == 6,
            grid.height == 1,
            grid.cells@.len() == 6,
            forall|k: int|
                0 <= k < 6 ==> #[trigger] grid.cells@[k] == if 1 <= k < i {
                    Cell { op: OP_A, dir_a: DIR_W, dir_b: DIR_W, state: 0 }
                } else {
                    Cell::void_spec()
                },
        decreases 5 - i,
    {
        grid.set(i, 0, Cell::new(OP_A, DIR_W, DIR_W));
        i = i + 1;
    }
    assert(grid.cells@ == shift_register_cells());
    grid
}

/// Cells with the shift register's ops and directions.
pub open spec fn shift_layout(c: Seq<Cell>) -> bool {
    &&& c.len() == 6
    &&& forall|i: int| 0 <= i < 6 ==> (#[trigger] c[i]).op == shift_register_cells()[i].op
        && c[i].dir_a == shift_register_cells()[i].dir_a && c[i].dir_b == shift_register_cells()[i].dir_b
}

/// Each step of the harness shift register moves every bit one cell East:
/// register cell `i` (1..=4) takes the state of cell `i - 1`, while the
/// input cell and the cell past the end are cleared.
pub proof fn lemma_shift_register_step(c: Seq<Cell>)
    requires
        shift_layout(c),
        forall|i: int| 0 <= i < 6 ==> #[trigger] c[i].state <= 1,
    ensures
        shift_layout(advance(c, 6, 1)),
        advance(c, 6, 1)[0].state == 0,
        advance(c, 6, 1)[5].state == 0,
        forall|i: int| 1 <= i <= 4 ==> #[trigger] advance(c, 6, 1)[i].state == c[i - 1].state,
{
    let adv = advance(c, 6, 1);
    assert forall|i: int| 1 <= i <= 4 implies #[trigger] adv[i].state == c[i - 1].state by {
        let x = i as usize;
        lemma_named_gates(c[i - 1].state, c[i - 1].state);
        assert(wrap_spec(x, -1, 6) == i - 1);
        assert(wrap_spec(0, 0, 1) == 0);
        assert(i % 6 == i && i / 6 == 0);
        assert(next_state(c, 6, 1, x, 0) == c[i - 1].state);
    }
    assert(0int % 6 == 0 && 0int / 6 == 0 && 5int % 6 == 5 && 5int / 6 == 0);
}

/// Layout of the harness jump chain on an 8x4 grid: (3,0) jumps 3 West to the
/// source (0,0), (3,2) jumps 2 North to (3,0), (7,2) jumps 4 West to (3,2).
pub open spec fn jump_chain_cells() -> Seq<Cell> {
    void_cells(32).update(3, Cell { op: crate::ops::OP_JUMP, dir_a: JUMP_DIR_W, dir_b: 3, state: 0 }).update(
        19,
        Cell { op: crate::ops::OP_JUMP, dir_a: JUMP_DIR_N, dir_b: 2, state: 0 },
    ).update(23, Cell { op: crate::ops::OP_JUMP, dir_a: JUMP_DIR_W, dir_b: 4, state: 0 })
}

pub fn jump_chain_circuit() -> (g: Grid)
    ensures
        g.wf(),
        g.width == 8,
        g.height == 4,
        g.cells@ == jump_chain_cells(),
{
    let mut grid = Grid::new(8, 4);
    grid.set(3, 0, Cell::jump(JUMP_DIR_W, 3));
    grid.set(3, 2, Cell::jump(JUMP_DIR_N, 2));
    grid.set(7, 2, Cell::jump(JUMP_DIR_W, 4));
    assert(grid.cells@ == jump_chain_cells());
    grid
}

/// Cells with the jump chain's ops and directions.
pub open spec fn jump_layout(c: Seq<Cell>) -> bool {
    &&& c.len() == 32
    &&& forall|i: int| 0 <= i < 32 ==> (#[trigger] c[i]).op == jump_chain_cells()[i].op
        && c[i].dir_a == jump_chain_cells()[i].dir_a && c[i].dir_b == jump_chain_cells()[i].dir_b
}

/// Each step of the harness jump chain carries the signal one hop: the jump
/// at (3,0) takes the state of the source (0,0), the one at (3,2) that of
/// (3,0), the one at (7,2) that of (3,2); the source keeps its forced value.
pub proof fn lemma_jump_chain_step(c: Seq<Cell>, v: u32)
    requires
        jump_layout(c),
    ensures
        jump_layout(step_cells(c, 8, 4, seq![(0usize, 0usize, v)])),
        step_cells(c, 8, 4, seq![(0usize, 0usize, v)])[0].state == v,
        step_cells(c, 8, 4, seq![(0usize, 0usize, v)])[3].state == c[0].state,
        step_cells(c, 8, 4, seq![(0usize, 0usize, v)])[19].state == c[3].state,
        step_cells(c, 8, 4, seq![(0usize, 0usize, v)])[23].state == c[19].state,
{
    let adv = advance(c, 8, 4);
    assert(c[3].op == crate::ops::OP_JUMP && c[3].dir_a == JUMP_DIR_W && c[3].dir_b == 3);
    assert(c[19].op == crate::ops::OP_JUMP && c[19].dir_a == JUMP_DIR_N && c[19].dir_b == 2);
    assert(c[23].op == crate::ops::OP_JUMP && c[23].dir_a == JUMP_DIR_W && c[23].dir_b == 4);
    assert((3u32 as i32) as int == 3 && (2u32 as i32) as int == 2 && (4u32 as i32) as int == 4);
    assert(wrap_spec(3, -3, 8) == 0);
    assert(wrap_spec(0, 0, 4) == 0);
    assert(wrap_spec(3, 0, 8) == 3);
    assert(wrap_spec(2, -2, 4) == 0);
    assert(wrap_spec(7, -4, 8) == 3);
    assert(wrap_spec(2, 0, 4) == 2);
    assert(3int % 8 == 3 && 3int / 8 == 0 && 19int % 8 == 3 && 19int / 8 == 2 && 23int % 8 == 7 && 23int / 8 == 2);
    assert(next_state(c, 8, 4, 3, 0) == c[0].state);
    assert(next_state(c, 8, 4, 3, 2) == c[3].state);
    assert(next_state(c, 8, 4, 7, 2) == c[19].state);
    let inp = seq![(0usize, 0usize, v)];
    assert(inp.drop_last() =~= Seq::<Input>::empty());
    assert(apply_inputs(adv, 8, inp.drop_last()) == adv);
    assert(apply_inputs(adv, 8, inp) == adv.update(0, with_state(adv[0], v)));
}

/// The cells the harness full adder sets on a 6x8 grid, as
/// `(x, y, op, dir_a, dir_b)` in the order they are placed. Inputs are A at
/// (0,0), B at (1,0), Cin at (3,0); Sum is read at (1,3), Cout at (3,6).
pub open spec fn full_adder_parts() -> Seq<(usize, usize, u32, u32, u32)> {
    seq![
        (0usize, 1usize, OP_XOR, DIR_N, DIR_NE),
        (1, 1, OP_AND, DIR_NW, DIR_N),
        (3, 1, OP_A, DIR_N, DIR_N),
        (0, 2, OP_A, DIR_N, DIR_N),
        (1, 2, OP_A, DIR_N, DIR_N),
        (3, 2, OP_A, DIR_N, DIR_N),
        (2, 2, OP_A, DIR_E, DIR_E),
        (1, 3, OP_XOR, DIR_NW, DIR_NE),
        (0, 3, OP_A, DIR_N, DIR_N),
        (3, 3, OP_A, DIR_N, DIR_N),
        (2, 3, OP_A, DIR_E, DIR_E),
        (0, 4, OP_A, DIR_N, DIR_N),
        (2, 4, OP_A, DIR_N, DIR_N),
        (1, 5, OP_AND, DIR_NW, DIR_NE),
        (4, 2, crate::ops::OP_JUMP, JUMP_DIR_W, 3),
        (4, 3, OP_A, DIR_N, DIR_N),
        (4, 4, OP_A, DIR_N, DIR_N),
        (4, 5, OP_A, DIR_N, DIR_N),
        (2, 6, OP_A, DIR_NW, DIR_NW),
        (4, 6, OP_A, DIR_N, DIR_N),
        (3, 6, OP_OR, DIR_W, DIR_E)
    ]
}

/// Places `parts` on `cells` (width `w`) in order.
pub open spec fn place(cells: Seq<Cell>, w: usize, parts: Seq<(usize, usize, u32, u32, u32)>) -> Seq<Cell>
    decreases parts.len(),
{
    if parts.len() == 0 {
        cells
    } else {
        let p = parts.last();
        place(cells, w, parts.drop_last()).update(
            p.1 * w + p.0,
            Cell { op: p.2, dir_a: p.3, dir_b: p.4, state: 0 },
        )
    }
}

/// Builds a `w` x `h` grid of void cells and places `parts` on it in order.
pub fn build_circuit(w: usize, h: usize, parts: &[(usize, usize, u32, u32, u32)]) -> (g: Grid)
    requires
        0 < w <= i32::MAX,
        0 < h <= i32::MAX,
        w * h <= usize::MAX,
        forall|k: int| 0 <= k < parts@.len() ==> (#[trigger] parts@[k]).1 * w + parts@[k].0 < w * h,
    ensures
        g.wf(),
        g.width == w,
        g.height == h,
        g.cells@ == place(void_cells((w * h) as nat), w, parts@),
{
    let mut grid = Grid::new(w, h);
    assert(grid.cells@ == void_cells((w * h) as nat));
    let mut k: usize = 0;
    while k < parts.len()
        invariant
            grid.width == w,
            grid.height == h,
            grid.wf(),
            k <= parts@.len(),
            forall|q: int| 0 <= q < parts@.len() ==> (#[trigger] parts@[q]).1 * w + parts@[q].0 < w * h,
            grid.cells@ == place(void_cells((w * h) as nat), w, parts@.subrange(0, k as int)),
        decreases parts@.len() - k,
    {
        let (x, y, op, dir_a, dir_b) = parts[k];
        proof {
            let next = parts@.subrange(0, k + 1);
            assert(next.drop_last() == parts@.subrange(0, k as int));
            assert(next.last() == parts@[k as int]);
            assert(parts@[k as int].1 * w + parts@[k as int].0 < w * h);
        }
        grid.set(x, y, Cell::new(op, dir_a, dir_b));
        k = k + 1;
    }
    assert(parts@.subrange(0, parts@.len() as int) == parts@);
    grid
}

/// The harness full adder on a 6x8 grid (see `full_adder_parts`).
pub fn full_adder_circuit() -> (g: Grid)
    ensures
        g.wf(),
        g.width == 6,
        g.height == 8,
        g.cells@ == place(void_cells(48), 6, full_adder_parts()),
{
    let parts: [(usize, usize, u32, u32, u32); 21] = [
        (0, 1, OP_XOR, DIR_N, DIR_NE),
        (1, 1, OP_AND, DIR_NW, DIR_N),
        (3, 1, OP_A, DIR_N, DIR_N),
        (0, 2, OP_A, DIR_N, DIR_N),
        (1, 2, OP_A, DIR_N, DIR_N),
        (3, 2, OP_A, DIR_N, DIR_N),
        (2, 2, OP_A, DIR_E, DIR_E),
        (1, 3, OP_XOR, DIR_NW, DIR_NE),
        (0, 3, OP_A, DIR_N, DIR_N),
        (3, 3, OP_A, DIR_N, DIR_N),
        (2, 3, OP_A, DIR_E, DIR_E),
        (0, 4, OP_A, DIR_N, DIR_N),
        (2, 4, OP_A, DIR_N, DIR_N),
        (1, 5, OP_AND, DIR_NW, DIR_NE),
        (4, 2, crate::ops::OP_JUMP, JUMP_DIR_W, 3),
        (4, 3, OP_A, DIR_N, DIR_N),
        (4, 4, OP_A, DIR_N, DIR_N),
        (4, 5, OP_A, DIR_N, DIR_N),
        (2, 6, OP_A, DIR_NW, DIR_NW),
        (4, 6, OP_A, DIR_N, DIR_N),
        (3, 6, OP_OR, DIR_W, DIR_E),
    ];
    assert(parts@ == full_adder_parts());
    build_circuit(6, 8, parts.as_slice())
}

/// The harness full adder's cells, written out (see `full_adder_parts`).
pub open spec fn fa_cell(i: int) -> Cell {
    if i == 6 {
        Cell { op: OP_XOR, dir_a: DIR_N, dir_b: DIR_NE, state: 0 }
    } else if i == 7 {
        Cell { op: OP_AND, dir_a: DIR_NW, dir_b: DIR_N, state: 0 }
    } else if i == 9 || i == 12 || i == 13 || i == 15 || i == 18 || i == 21 || i == 24 || i == 26 || i == 22
        || i == 28 || i == 34 || i == 40 {
        Cell { op: OP_A, dir_a: DIR_N, dir_b: DIR_N, state: 0 }
    } else if i == 14 || i == 20 {
        Cell { op: OP_A, dir_a: DIR_E, dir_b: DIR_E, state: 0 }
    } else if i == 19 {
        Cell { op: OP_XOR, dir_a: DIR_NW, dir_b: DIR_NE, state: 0 }
    } else if i == 31 {
        Cell { op: OP_AND, dir_a: DIR_NW, dir_b: DIR_NE, state: 0 }
    } else if i == 16 {
        Cell { op: crate::ops::OP_JUMP, dir_a: JUMP_DIR_W, dir_b: 3, state: 0 }
    } else if i == 38 {
        Cell { op: OP_A, dir_a: DIR_NW, dir_b: DIR_NW, state: 0 }
    } else if i == 39 {
        Cell { op: OP_OR, dir_a: DIR_W, dir_b: DIR_E, state: 0 }
    } else {
        Cell::void_spec()
    }
}

proof fn lemma_full_adder_cells()
    ensures
        place(void_cells(48), 6, full_adder_parts()) == Seq::new(48, |i: int| fa_cell(i)),
{
    reveal_with_fuel(place, 22);
    assert(place(void_cells(48), 6, full_adder_parts()) =~= Seq::new(48, |i: int| fa_cell(i)));
}

/// Cells with the full adder's ops and directions.
pub open spec fn fa_layout(c: Seq<Cell>) -> bool {
    &&& c.len() == 48
    &&& forall|i: int| 0 <= i < 48 ==> (#[trigger] c[i]).op == fa_cell(i).op && c[i].dir_a == fa_cell(i).dir_a
        && c[i].dir_b == fa_cell(i).dir_b
}

/// Steps after which cell `i` of the full adder holds its final value (the
/// inputs hold theirs from the start); 100 for the cells it does not use.
pub open spec fn fa_depth(i: int) -> int {
    if i == 0 || i == 1 || i == 3 {
        0
    } else if i == 6 || i == 7 || i == 9 {
        1
    } else if i == 12 || i == 13 || i == 15 {
        2
    } else if i == 14 || i == 16 || i == 18 || i == 21 {
        3
    } else if i == 19 || i == 20 || i == 22 || i == 24 {
        4
    } else if i == 26 || i == 28 {
        5
    } else if i == 31 || i == 34 {
        6
    } else if i == 38 || i == 40 {
        7
    } else if i == 39 {
        8
    } else {
        100
    }
}

/// Final value of cell `i` of the full adder for inputs `a`, `b`, `ci`:
/// the partial sum `a ^ b` and its copies, the partial carry `a & b` and
/// its copies, the carry in and its copies, the sum (19), the second carry
/// (31) and the carry out (39).
pub open spec fn fa_value(i: int, a: u32, b: u32, ci: u32) -> u32 {
    if i == 0 {
        a
    } else if i == 1 {
        b
    } else if i == 3 || i == 9 || i == 15 || i == 14 || i == 21 || i == 20 || i == 26 {
        ci
    } else if i == 6 || i == 12 || i == 18 || i == 24 {
        a ^ b
    } else if i == 7 || i == 13 || i == 16 || i == 22 || i == 28 || i == 34 || i == 40 {
        a & b
    } else if i == 19 {
        (a ^ b) ^ ci
    } else if i == 31 || i == 38 {
        (a ^ b) & ci
    } else {
        ((a ^ b) & ci) | (a & b)
    }
}

/// Every cell of depth at most `t` holds its final value.
pub open spec fn fa_ready(c: Seq<Cell>, a: u32, b: u32, ci: u32, t: int) -> bool {
    forall|i: int| 0 <= i < 48 && #[trigger] fa_depth(i) <= t && fa_depth(i) <= 8 ==> c[i].state == fa_value(i, a, b, ci)
}

/// Inputs of the full adder: A at (0,0), B at (1,0), Cin at (3,0).
pub open spec fn full_adder_inputs(a: u32, b: u32, ci: u32) -> Seq<Input> {
    seq![(0usize, 0usize, a), (1usize, 0usize, b), (3usize, 0usize, ci)]
}

#[verifier::spinoff_prover]
#[verifier::rlimit(40)]
proof fn lemma_fa_next(c: Seq<Cell>, a: u32, b: u32, ci: u32, t: int, i: int)
    requires
        a <= 1,
        b <= 1,
        ci <= 1,
        fa_layout(c),
        fa_ready(c, a, b, ci, t),
        0 <= i < 48,
        1 <= fa_depth(i) <= t + 1,
        fa_depth(i) <= 8,
    ensures
        next_state(c, 6, 8, (i % 6) as usize, (i / 6) as usize) == fa_value(i, a, b, ci),
{
    lemma_bit_or();
    let ab = a ^ b;
    let ad = a & b;
    assert(ab <= 1 && ad <= 1);
    assert((ab & ci) <= 1);
    let x = (i % 6) as usize;
    let y = (i / 6) as usize;
    assert(c[i] == c[y * 6 + x]);
    if i == 6 || i == 7 {
        assert(fa_depth(0) <= t && fa_depth(1) <= t);
        lemma_named_gates(a, b);
        assert(wrap_spec(0, 0, 6) == 0 && wrap_spec(0, 1, 6) == 1 && wrap_spec(1, -1, 6) == 0);
        assert(wrap_spec(1, 0, 6) == 1 && wrap_spec(1, -1, 8) == 0);
    } else if i == 9 {
        assert(fa_depth(3) <= t);
        lemma_named_gates(ci, ci);
        assert(wrap_spec(3, 0, 6) == 3 && wrap_spec(1, -1, 8) == 0);
    } else if i == 12 || i == 13 || i == 15 {
        assert(fa_depth(i - 6) <= t);
        let v = c[i - 6].state;
        lemma_named_gates(v, v);
        assert(wrap_spec(x, 0, 6) == x && wrap_spec(2, -1, 8) == 1);
    } else if i == 14 || i == 20 {
        assert(fa_depth(i + 1) <= t);
        let v = c[i + 1].state;
        lemma_named_gates(v, v);
        assert(wrap_spec(2, 1, 6) == 3 && wrap_spec(y, 0, 8) == y);
    } else if i == 16 {
        assert(fa_depth(13) <= t);
        assert((3u32 as i32) as int == 3);
        assert(wrap_spec(4, -3, 6) == 1 && wrap_spec(2, 0, 8) == 2);
    } else if i == 18 || i == 21 || i == 24 || i == 26 || i == 22 || i == 28 || i == 34 || i == 40 {
        assert(fa_depth(i - 6) <= t);
        let v = c[i - 6].state;
        lemma_named_gates(v, v);
        assert(wrap_spec(x, 0, 6) == x && wrap_spec(y, -1, 8) == y - 1);
    } else if i == 19 || i == 31 {
        assert(fa_depth(i - 7) <= t && fa_depth(i - 5) <= t);
        let va = c[i - 7].state;
        let vb = c[i - 5].state;
        lemma_named_gates(va, vb);
        assert(wrap_spec(1, -1, 6) == 0 && wrap_spec(1, 1, 6) == 2 && wrap_spec(y, -1, 8) == y - 1);
    } else if i == 38 {
        assert(fa_depth(31) <= t);
        let v = c[31].state;
        lemma_named_gates(v, v);
        assert(wrap_spec(2, -1, 6) == 1 && wrap_spec(6, -1, 8) == 5);
    } else {
        assert(i == 39);
        assert(fa_depth(38) <= t && fa_depth(40) <= t);
        let va = c[38].state;
        let vb = c[40].state;
        lemma_named_gates(va, vb);
        assert(wrap_spec(3, -1, 6) == 2 && wrap_spec(3, 1, 6) == 4 && wrap_spec(6, 0, 8) == 6);
    }
}

proof fn lemma_fa_step(c: Seq<Cell>, a: u32, b: u32, ci: u32, t: int)
    requires
        a <= 1,
        b <= 1,
        ci <= 1,
        0 <= t,
        fa_layout(c),
        fa_ready(c, a, b, ci, t),
    ensures
        fa_layout(step_cells(c, 6, 8, full_adder_inputs(a, b, ci))),
        fa_ready(step_cells(c, 6, 8, full_adder_inputs(a, b, ci)), a, b, ci, t + 1),
{
    let adv = advance(c, 6, 8);
    let inp = full_adder_inputs(a, b, ci);
    assert(inp.drop_last().drop_last().drop_last() =~= Seq::<Input>::empty());
    let s1 = apply_inputs(adv, 6, inp.drop_last().drop_last());
    assert(apply_inputs(adv, 6, inp.drop_last().drop_last().drop_last()) == adv);
    assert(s1 == adv.update(0, with_state(adv[0], a)));
    let s2 = apply_inputs(adv, 6, inp.drop_last());
    assert(s2 == s1.update(1, with_state(s1[1], b)));
    let s3 = apply_inputs(adv, 6, inp);
    assert(s3 == s2.update(3, with_state(s2[3], ci)));
    assert forall|i: int| 0 <= i < 48 && #[trigger] fa_depth(i) <= t + 1 && fa_depth(i) <= 8 implies s3[i].state == fa_value(
        i,
        a,
        b,
        ci,
    ) by {
        if i != 0 && i != 1 && i != 3 {
            lemma_fa_next(c, a, b, ci, t, i);
            assert(s3[i] == adv[i]);
        }
    }
}

proof fn lemma_fa_run(c: Seq<Cell>, a: u32, b: u32, ci: u32, t: nat)
    requires
        a <= 1,
        b <= 1,
        ci <= 1,
        fa_layout(run_cells(c, 6, 8, full_adder_inputs(a, b, ci), 0)),
        fa_ready(run_cells(c, 6, 8, full_adder_inputs(a, b, ci), 0), a, b, ci, 0),
    ensures
        fa_layout(run_cells(c, 6, 8, full_adder_inputs(a, b, ci), t)),
        fa_ready(run_cells(c, 6, 8, full_adder_inputs(a, b, ci), t), a, b, ci, t as int),
    decreases t,
{
    if t > 0 {
        lemma_fa_run(c, a, b, ci, (t - 1) as nat);
        lemma_fa_step(run_cells(c, 6, 8, full_adder_inputs(a, b, ci), (t - 1) as nat), a, b, ci, t - 1);
    }
}

/// The harness full adder adds: after the inputs are forced and eight steps
/// run from a cleared grid, cell (1,3) holds the low bit of `a + b + ci`
/// and cell (3,6) the carry, for every three input bits.
pub proof fn lemma_full_adder(a: u32, b: u32, ci: u32)
    requires
        a <= 1,
        b <= 1,
        ci <= 1,
    ensures
        ({
            let s = run_cells(
                cleared(place(void_cells(48), 6, full_adder_parts())),
                6,
                8,
                full_adder_inputs(a, b, ci),
                8,
            );
            &&& s[19].state == (a + b + ci) % 2
            &&& s[39].state == (a + b + ci) / 2
        }),
{
    lemma_full_adder_cells();
    lemma_bit_or();
    let c = cleared(place(void_cells(48), 6, full_adder_parts()));
    let inp = full_adder_inputs(a, b, ci);
    assert(fa_layout(c));
    let c0 = run_cells(c, 6, 8, inp, 0);
    assert(inp.drop_last().drop_last().drop_last() =~= Seq::<Input>::empty());
    let s1 = apply_inputs(c, 6, inp.drop_last().drop_last());
    assert(apply_inputs(c, 6, inp.drop_last().drop_last().drop_last()) == c);
    assert(s1 == c.update(0, with_state(c[0], a)));
    let s2 = apply_inputs(c, 6, inp.drop_last());
    assert(s2 == s1.update(1, with_state(s1[1], b)));
    assert(c0 == s2.update(3, with_state(s2[3], ci)));
    assert(fa_layout(c0));
    assert(fa_ready(c0, a, b, ci, 0));
    lemma_fa_run(c, a, b, ci, 8);
    let s = run_cells(c, 6, 8, inp, 8);
    assert(fa_depth(19) <= 8 && fa_depth(39) <= 8);
    assert(s[19].state == (a ^ b) ^ ci);
    assert(s[39].state == ((a ^ b) & ci) | (a & b));
}

} // verus!
