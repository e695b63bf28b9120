//! A 16x16 toroidal grid of gate cells in which an organism is placed,
//! driven through fixed input cells and read at fixed output cells.
//!
//! A cell with `op < 16` computes the 4-bit truth table `op` of the states of
//! its two neighbours in directions `dir_a` and `dir_b`; any other op is void
//! and outputs 0.
use vstd::prelude::*;
use crate::ops::{eval_gate, gate_output, lut_index};

verus! {

pub const QUINE_GRID_DIM: usize = 16;
pub const QUINE_GRID_SIZE: usize = 256;
/// Simulation steps of a quine test.
pub const QUINE_SIM_STEPS: usize = 20;
/// The void op.
pub const GRID_VOID: u32 = 16;

#[derive(Clone, Copy, Debug, PartialEq, Eq)]
pub struct GateCell {
    pub op: u32,
    pub dir_a: u32,
    pub dir_b: u32,
}

/// Offset `(dx, dy)` of direction `dir` (0 = N, clockwise to 7 = NW; y grows
/// downwards); any other value stays in place.
pub open spec fn grid_dir_delta(dir: u32) -> (int, int) {
    if dir == 0 {
        (0, -1)
    } else if dir == 1 {
        (1, -1)
    } else if dir == 2 {
        (1, 0)
    } else if dir == 3 {
        (1, 1)
    } else if dir == 4 {
        (0, 1)
    } else if dir == 5 {
        (-1, 1)
    } else if dir == 6 {
        (-1, 0)
    } else if dir == 7 {
        (-1, -1)
    } else {
        (0, 0)
    }
}

/// Index of the neighbour of cell `idx` in direction `dir`, wrapping around
/// the 16x16 torus.
pub open spec fn neighbor16(idx: int, dir: u32) -> int {
    let (dx, dy) = grid_dir_delta(dir);
    let nx = (idx % 16 + dx + 16) % 16;
    let ny = (idx / 16 + dy + 16) % 16;
    ny * 16 + nx
}

/// Neighbours on the 16x16 torus are mutual: the neighbour of a cell is a
/// cell, the neighbour of that one in the opposite direction `(dir + 4) % 8`
/// is the cell itself, and a direction of 8 or more stays put.
pub proof fn lemma_neighbor16_inverse(idx: int, dir: u32)
    requires
        0 <= idx < 256,
    ensures
        0 <= neighbor16(idx, dir) < 256,
        dir >= 8 ==> neighbor16(idx, dir) == idx,
        dir < 8 ==> neighbor16(neighbor16(idx, dir), ((dir + 4) % 8) as u32) == idx,
{
    let x = idx % 16;
    let y = idx / 16;
    assert(0 <= x < 16 && 0 <= y < 16 && idx == y * 16 + x);
    let (dx, dy) = grid_dir_delta(dir);
    let nx = (x + dx + 16) % 16;
    let ny = (y + dy + 16) % 16;
    assert(0 <= nx < 16 && 0 <= ny < 16);
    let m = neighbor16(idx, dir);
    assert(m == ny * 16 + nx);
    assert(m % 16 == nx && m / 16 == ny);
    if dir < 8 {
        let (ex, ey) = grid_dir_delta(((dir + 4) % 8) as u32);
        assert(ex == -dx && ey == -dy);
        assert((nx + ex + 16) % 16 == x);
        assert((ny + ey + 16) % 16 == y);
    }
}

/// Index of the neighbour of cell `idx` in direction `dir` on the 16x16
/// torus.
pub fn get_neighbor_idx(idx: i32, dir: u32) -> (r: usize)
    requires
        idx >= 0,
    ensures
        r == neighbor16(idx as int, dir),
        r < 256,
{
    let x = idx % 16;
    let y = idx / 16;
    let (dx, dy): (i32, i32) = match dir {
        0 => (0, -1),
        1 => (1, -1),
        2 => (1, 0),
        3 => (1, 1),
        4 => (0, 1),
        5 => (-1, 1),
        6 => (-1, 0),
        7 => (-1, -1),
        _ => (0, 0),
    };
    let nx = (x + dx + 16) % 16;
    let ny = (y + dy + 16) % 16;
    (ny * 16 + nx) as usize
}

/// Arrow drawn for a direction.
pub open spec fn dir_arrow_spec(dir: u32) -> char {
    if dir == 0 {
        '↑'
    } else if dir == 1 {
        '↗'
    } else if dir == 2 {
        '→'
    } else if dir == 3 {
        '↘'
    } else if dir == 4 {
        '↓'
    } else if dir == 5 {
        '↙'
    } else if dir == 6 {
        '←'
    } else if dir == 7 {
        '↖'
    } else {
        '?'
    }
}

/// Arrow drawn for a direction, `?` for one out of range.
pub fn dir_arrow(dir: u32) -> (r: char)
    ensures
        r == dir_arrow_spec(dir),
{
    match dir {
        0 => '↑',
        1 => '↗',
        2 => '→',
        3 => '↘',
        4 => '↓',
        5 => '↙',
        6 => '←',
        7 => '↖',
        _ => '?',
    }
}

/// The void cell.
pub open spec fn void_cell() -> GateCell {
    GateCell { op: GRID_VOID, dir_a: 0, dir_b: 0 }
}

/// Cell `idx` of a void grid in which the `side`x`side` block `cells` (row
/// by row) is placed with its top left corner at `(ox, oy)`.
pub open spec fn placed_cell(cells: Seq<GateCell>, side: int, ox: int, oy: int, idx: int) -> GateCell {
    let x = idx % 16;
    let y = idx / 16;
    if ox <= x < ox + side && oy <= y < oy + side {
        cells[(y - oy) * side + (x - ox)]
    } else {
        void_cell()
    }
}

/// A void 16x16 grid with the `side`x`side` block `cells` placed at
/// `(ox, oy)`.
pub fn place_block(cells: &Vec<GateCell>, side: usize, ox: usize, oy: usize) -> (grid: Vec<GateCell>)
    requires
        ox + side <= 16,
        oy + side <= 16,
        cells@.len() == side * side,
    ensures
        grid@.len() == QUINE_GRID_SIZE,
        forall|i: int|
            0 <= i < 256 ==> #[trigger] grid@[i] == placed_cell(cells@, side as int, ox as int, oy as int, i),
{
    let mut grid: Vec<GateCell> = Vec::with_capacity(QUINE_GRID_SIZE);
    let mut idx: usize = 0;
    while idx < QUINE_GRID_SIZE
        invariant
            idx <= 256,
            ox + side <= 16,
            oy + side <= 16,
            cells@.len() == side * side,
            grid@.len() == idx,
            forall|i: int|
                0 <= i < idx ==> #[trigger] grid@[i] == placed_cell(
                    cells@,
                    side as int,
                    ox as int,
                    oy as int,
                    i,
                ),
        decreases 256 - idx,
    {
        let x = idx % 16;
        let y = idx / 16;
        if ox <= x && x < ox + side && oy <= y && y < oy + side {
            assert((y - oy) * side <= 15 * 16) by (nonlinear_arith)
                requires
                    y - oy < 16,
                    side <= 16,
                    y >= oy,
            ;
            let k = (y - oy) * side + (x - ox);
            assert(k < side * side) by (nonlinear_arith)
                requires
                    k == (y - oy) * side + (x - ox),
                    y - oy < side,
                    x - ox < side,
                    y >= oy,
                    x >= ox,
            ;
            grid.push(cells[k]);
        } else {
            grid.push(GateCell { op: GRID_VOID, dir_a: 0, dir_b: 0 });
        }
        idx = idx + 1;
    }
    grid
}

/// When tracing back from cell `i`, whether it reaches cell `j`: `i` is a
/// gate that is not an input and reads `j` through one of its directions.
pub open spec fn traces_to(grid: Seq<GateCell>, inputs: Seq<usize>, i: int, j: int) -> bool {
    &&& grid[i].op < 16
    &&& !inputs.contains(i as usize)
    &&& (neighbor16(i, grid[i].dir_a) == j || neighbor16(i, grid[i].dir_b) == j)
}

/// The cells listed in `outputs`.
pub open spec fn output_mask(outputs: Seq<usize>) -> Seq<bool> {
    Seq::new(256, |j: int| outputs.contains(j as usize))
}

/// The cells reached in one step back from the cells of `cur`.
pub open spec fn next_level_spec(grid: Seq<GateCell>, inputs: Seq<usize>, cur: Seq<bool>) -> Seq<bool> {
    Seq::new(
        256,
        |j: int| exists|i: int| 0 <= i < 256 && cur[i] && #[trigger] traces_to(grid, inputs, i, j),
    )
}

/// The cells `d` steps back from the outputs.
pub open spec fn trace_level(grid: Seq<GateCell>, inputs: Seq<usize>, outputs: Seq<usize>, d: nat) -> Seq<
    bool,
>
    decreases d,
{
    if d == 0 {
        output_mask(outputs)
    } else {
        next_level_spec(grid, inputs, trace_level(grid, inputs, outputs, (d - 1) as nat))
    }
}

/// Whether cell `j` is fewer than `n` steps back from the outputs.
pub open spec fn traced_within(grid: Seq<GateCell>, inputs: Seq<usize>, outputs: Seq<usize>, n: nat, j: int) -> bool {
    exists|d: nat| d < n && #[trigger] trace_level(grid, inputs, outputs, d)[j]
}

/// Whether `x` is listed in `v`.
fn is_listed(v: &Vec<usize>, x: usize) -> (r: bool)
    ensures
        r == v@.contains(x),
{
    let mut k: usize = 0;
    while k < v.len()
        invariant
            k <= v@.len(),
            forall|q: int| 0 <= q < k ==> v@[q] != x,
        decreases v@.len() - k,
    {
        if v[k] == x {
            assert(v@[k as int] == x);
            return true;
        }
        k = k + 1;
    }
    false
}

fn output_level(outputs: &Vec<usize>) -> (r: Vec<bool>)
    ensures
        r@ == output_mask(outputs@),
{
    let mut r: Vec<bool> = Vec::with_capacity(QUINE_GRID_SIZE);
    let mut j: usize = 0;
    while j < QUINE_GRID_SIZE
        invariant
            j <= 256,
            r@.len() == j,
            forall|q: int| 0 <= q < j ==> #[trigger] r@[q] == outputs@.contains(q as usize),
        decreases 256 - j,
    {
        r.push(is_listed(outputs, j));
        j = j + 1;
    }
    assert(r@ =~= output_mask(outputs@));
    r
}

fn next_level(grid: &Vec<GateCell>, inputs: &Vec<usize>, cur: &Vec<bool>) -> (next: Vec<bool>)
    requires
        grid@.len() == 256,
        cur@.len() == 256,
    ensures
        next@ == next_level_spec(grid@, inputs@, cur@),
{
    let mut next: Vec<bool> = vec![false; QUINE_GRID_SIZE];
    let mut idx: usize = 0;
    while idx < QUINE_GRID_SIZE
        invariant
            idx <= 256,
            grid@.len() == 256,
            cur@.len() == 256,
            next@.len() == 256,
            forall|j: int|
                0 <= j < 256 ==> #[trigger] next@[j] == (exists|i: int|
                    0 <= i < idx && cur@[i] && #[trigger] traces_to(grid@, inputs@, i, j)),
        decreases 256 - idx,
    {
        let ghost prev = next@;
        if cur[idx] && grid[idx].op < 16 && !is_listed(inputs, idx) {
            let cell = grid[idx];
            let na = get_neighbor_idx(idx as i32, cell.dir_a);
            let nb = get_neighbor_idx(idx as i32, cell.dir_b);
            next.set(na, true);
            next.set(nb, true);
        }
        proof {
            let ii = idx as int;
            assert forall|j: int| 0 <= j < 256 implies #[trigger] next@[j] == (exists|i: int|
                0 <= i < ii + 1 && cur@[i] && #[trigger] traces_to(grid@, inputs@, i, j)) by {
                if cur@[ii] && traces_to(grid@, inputs@, ii, j) {
                    assert(next@[j]);
                } else {
                    assert(next@[j] == prev[j]);
                    if exists|i: int| 0 <= i < ii + 1 && cur@[i] && #[trigger] traces_to(grid@, inputs@, i, j) {
                        let w = choose|i: int| 0 <= i < ii + 1 && cur@[i] && #[trigger] traces_to(grid@, inputs@, i, j);
                        assert(w < ii);
                    }
                }
            }
        }
        idx = idx + 1;
    }
    assert(next@ =~= next_level_spec(grid@, inputs@, cur@));
    next
}

/// The cells fewer than `n` steps back from the outputs, tracing through
/// gates and stopping at inputs.
pub fn trace_levels(grid: &Vec<GateCell>, inputs: &Vec<usize>, outputs: &Vec<usize>, n: usize) -> (active: Vec<bool>)
    requires
        grid@.len() == QUINE_GRID_SIZE,
    ensures
        active@.len() == QUINE_GRID_SIZE,
        forall|j: int|
            0 <= j < 256 ==> #[trigger] active@[j] == traced_within(grid@, inputs@, outputs@, n as nat, j),
{
    let mut active: Vec<bool> = vec![false; QUINE_GRID_SIZE];
    if n == 0 {
        return active;
    }
    let mut cur = output_level(outputs);
    let mut k: usize = 0;
    while k < n
        invariant
            k <= n,
            grid@.len() == 256,
            active@.len() == 256,
            k < n ==> cur@ == trace_level(grid@, inputs@, outputs@, k as nat),
            cur@.len() == 256,
            forall|j: int|
                0 <= j < 256 ==> #[trigger] active@[j] == traced_within(grid@, inputs@, outputs@, k as nat, j),
        decreases n - k,
    {
        let ghost prev = active@;
        let mut j: usize = 0;
        while j < QUINE_GRID_SIZE
            invariant
                j <= 256,
                cur@.len() == 256,
                active@.len() == 256,
                forall|q: int| 0 <= q < j ==> #[trigger] active@[q] == (prev[q] || cur@[q]),
                forall|q: int| j <= q < 256 ==> #[trigger] active@[q] == prev[q],
            decreases 256 - j,
        {
            if cur[j] {
                active.set(j, true);
            }
            j = j + 1;
        }
        proof {
            assert forall|q: int| 0 <= q < 256 implies #[trigger] active@[q] == traced_within(
                grid@,
                inputs@,
                outputs@,
                (k + 1) as nat,
                q,
            ) by {
                let kk = k as nat;
                if cur@[q] {
                    assert(trace_level(grid@, inputs@, outputs@, kk)[q]);
                } else if traced_within(grid@, inputs@, outputs@, (k + 1) as nat, q) {
                    let d = choose|d: nat| d < k + 1 && #[trigger] trace_level(grid@, inputs@, outputs@, d)[q];
                    assert(d < kk);
                }
            }
        }
        if k + 1 < n {
            cur = next_level(grid, inputs, &cur);
        }
        k = k + 1;
    }
    active
}

/// First and number of the input cells of a quine test (a 4-bit case index
/// is driven into them, bit `b` into cell `QUINE_INPUT_START + b`).
pub const QUINE_INPUT_START: usize = 102;
pub const QUINE_IO_BITS: usize = 4;
/// First output cell (bit `b` of the answer is read from cell
/// `QUINE_OUTPUT_START + b`).
pub const QUINE_OUTPUT_START: usize = 150;

/// The fixed input cells of a quine test.
pub open spec fn is_quine_input(idx: int) -> bool {
    102 <= idx < 106
}

/// The cells active in a quine test of `grid`: those at most
/// `QUINE_SIM_STEPS` steps back from the outputs `outputs`, tracing through
/// gates and stopping at `inputs`.
pub fn trace_active(grid: &Vec<GateCell>, inputs: &Vec<usize>, outputs: &Vec<usize>) -> (active: Vec<bool>)
    requires
        grid@.len() == QUINE_GRID_SIZE,
    ensures
        active@.len() == QUINE_GRID_SIZE,
        forall|j: int|
            0 <= j < 256 ==> #[trigger] active@[j] == traced_within(grid@, inputs@, outputs@, 21, j),
{
    trace_levels(grid, inputs, outputs, QUINE_SIM_STEPS + 1)
}

/// The input and output cells of an 8x8 organism test.
pub struct IoConfig {
    pub inputs: Vec<usize>,
    pub outputs: Vec<usize>,
}

/// Cell `idx` of the 16x16 grid holding the 8x8 organism `cells` at (4, 4).
pub open spec fn organism_cell(cells: Seq<GateCell>, idx: int) -> GateCell {
    placed_cell(cells, 8, 4, 4, idx)
}

/// The 16x16 grid holding the 8x8 organism `cells` at (4, 4).
pub open spec fn organism_grid(cells: Seq<GateCell>) -> Seq<GateCell> {
    Seq::new(256, |i: int| organism_cell(cells, i))
}

/// The grid cells reached fewer than `QUINE_SIM_STEPS` steps back from the
/// outputs of `io`, for the 8x8 organism `cells` placed at (4, 4).
pub fn trace_organism(cells: &Vec<GateCell>, io: &IoConfig) -> (active: Vec<bool>)
    requires
        cells@.len() == 64,
    ensures
        active@.len() == QUINE_GRID_SIZE,
        forall|j: int|
            0 <= j < 256 ==> #[trigger] active@[j] == traced_within(
                organism_grid(cells@),
                io.inputs@,
                io.outputs@,
                20,
                j,
            ),
{
    let grid = place_block(cells, 8, 4, 4);
    assert(grid@ =~= organism_grid(cells@));
    trace_levels(&grid, &io.inputs, &io.outputs, QUINE_SIM_STEPS)
}

/// New state of cell `idx` after one step from states `s`, test case `case`
/// being driven into the input cells.
pub open spec fn sim_cell(grid: Seq<GateCell>, case: u32, s: Seq<u32>, idx: int) -> u32 {
    if is_quine_input(idx) {
        (case >> ((idx - 102) as u32)) & 1u32
    } else {
        gate_output(grid[idx].op, s[neighbor16(idx, grid[idx].dir_a)], s[neighbor16(idx, grid[idx].dir_b)])
    }
}

/// The states after `k` steps of test case `case`, from all 0.
pub open spec fn sim_state(grid: Seq<GateCell>, case: u32, k: nat) -> Seq<u32>
    decreases k,
{
    if k == 0 {
        Seq::new(256, |i: int| 0u32)
    } else {
        let s = sim_state(grid, case, (k - 1) as nat);
        Seq::new(256, |i: int| sim_cell(grid, case, s, i))
    }
}

/// The 4-bit answer read from the output cells.
pub open spec fn output_value(s: Seq<u32>) -> int {
    s[150] + 2 * s[151] + 4 * s[152] + 8 * s[153]
}

/// The answer of the grid to test case `case` after `QUINE_SIM_STEPS` steps.
pub open spec fn quine_answer(grid: Seq<GateCell>, case: u32) -> int {
    output_value(sim_state(grid, case, 20))
}

proof fn lemma_bits_lut(a: u32, b: u32)
    requires
        a <= 1,
        b <= 1,
    ensures
        lut_index(a, b) < 4,
{
    assert((a << 1u32) | b < 4) by (bit_vector)
        requires
            a <= 1,
            b <= 1,
    ;
}

fn sim_step(grid: &Vec<GateCell>, case: u32, s: &Vec<u32>) -> (r: Vec<u32>)
    requires
        grid@.len() == 256,
        s@.len() == 256,
        forall|i: int| 0 <= i < 256 ==> #[trigger] s@[i] <= 1,
    ensures
        r@ == Seq::new(256, |i: int| sim_cell(grid@, case, s@, i)),
        forall|i: int| 0 <= i < 256 ==> #[trigger] r@[i] <= 1,
{
    let mut r: Vec<u32> = Vec::with_capacity(QUINE_GRID_SIZE);
    let mut idx: usize = 0;
    while idx < QUINE_GRID_SIZE
        invariant
            idx <= 256,
            grid@.len() == 256,
            s@.len() == 256,
            forall|i: int| 0 <= i < 256 ==> #[trigger] s@[i] <= 1,
            r@.len() == idx,
            forall|i: int| 0 <= i < idx ==> #[trigger] r@[i] == sim_cell(grid@, case, s@, i),
            forall|i: int| 0 <= i < idx ==> #[trigger] r@[i] <= 1,
        decreases 256 - idx,
    {
        let cell = grid[idx];
        let na = get_neighbor_idx(idx as i32, cell.dir_a);
        let nb = get_neighbor_idx(idx as i32, cell.dir_b);
        let va = s[na];
        let vb = s[nb];
        proof {
            lemma_bits_lut(va, vb);
        }
        let mut res = eval_gate(cell.op, va, vb);
        if idx >= QUINE_INPUT_START && idx < QUINE_INPUT_START + QUINE_IO_BITS {
            let bit = (idx - QUINE_INPUT_START) as u32;
            res = (case >> bit) & 1;
            assert(res <= 1) by (bit_vector)
                requires
                    res == (case >> bit) & 1u32,
            ;
        }
        r.push(res);
        idx = idx + 1;
    }
    assert(r@ =~= Seq::new(256, |i: int| sim_cell(grid@, case, s@, i)));
    r
}

/// The answer of `grid` to test case `case` (0..16): the case is driven
/// into the input cells, all states starting at 0, for `QUINE_SIM_STEPS`
/// steps, then the output cells are read as a 4-bit number.
pub fn quine_output(grid: &Vec<GateCell>, case: u32) -> (r: u32)
    requires
        grid@.len() == QUINE_GRID_SIZE,
    ensures
        r == quine_answer(grid@, case),
        r < 16,
{
    let mut state: Vec<u32> = vec![0u32; QUINE_GRID_SIZE];
    proof {
        assert forall|i: int| 0 <= i < 256 implies #[trigger] state@[i] <= 1 by {
            assert(cloned(0u32, state@[i]));
        }
        assert(state@ =~= sim_state(grid@, case, 0));
    }
    let mut k: usize = 0;
    while k < QUINE_SIM_STEPS
        invariant
            k <= 20,
            grid@.len() == 256,
            state@ == sim_state(grid@, case, k as nat),
            state@.len() == 256,
            forall|i: int| 0 <= i < 256 ==> #[trigger] state@[i] <= 1,
        decreases 20 - k,
    {
        state = sim_step(grid, case, &state);
        k = k + 1;
    }
    let b0 = state[150];
    let b1 = state[151];
    let b2 = state[152];
    let b3 = state[153];
    let out = b0 | (b1 << 1u32) | (b2 << 2u32) | (b3 << 3u32);
    assert(out == b0 + 2 * b1 + 4 * b2 + 8 * b3) by (bit_vector)
        requires
            out == b0 | (b1 << 1u32) | (b2 << 2u32) | (b3 << 3u32),
            b0 <= 1,
            b1 <= 1,
            b2 <= 1,
            b3 <= 1,
    ;
    out
}

/// The answer a quine owes for a cell's op: the op itself, void counting
/// as 0.
pub open spec fn quine_expected(op: u32) -> int {
    if op == 16 { 0 } else { op as int }
}

/// Number of test cases `0..k` on which the grid answers the op of the
/// matching organism cell.
pub open spec fn quine_matches(grid: Seq<GateCell>, ops: Seq<u32>, k: int) -> int
    decreases k,
{
    if k <= 0 {
        0
    } else {
        quine_matches(grid, ops, k - 1) + if quine_answer(grid, (k - 1) as u32) == quine_expected(
            ops[k - 1],
        ) {
            1int
        } else {
            0int
        }
    }
}

/// Tests a 4x4 hidden quine: for each case `i` in `0..16`, the grid's answer
/// to `i` against the op of organism cell `i`. Returns the answers and the
/// number of cases that match.
pub fn verify_quine(grid: &Vec<GateCell>, ops: &Vec<u32>) -> (r: (Vec<u32>, usize))
    requires
        grid@.len() == QUINE_GRID_SIZE,
        ops@.len() == 16,
    ensures
        r.0@.len() == 16,
        forall|i: int| 0 <= i < 16 ==> #[trigger] r.0@[i] == quine_answer(grid@, i as u32),
        r.1 == quine_matches(grid@, ops@, 16),
{
    let mut outputs: Vec<u32> = Vec::with_capacity(16);
    let mut matches: usize = 0;
    let mut i: u32 = 0;
    while i < 16
        invariant
            i <= 16,
            grid@.len() == 256,
            ops@.len() == 16,
            outputs@.len() == i,
            forall|q: int| 0 <= q < i ==> #[trigger] outputs@[q] == quine_answer(grid@, q as u32),
            matches == quine_matches(grid@, ops@, i as int),
            matches <= i,
        decreases 16 - i,
    {
        let target_raw = ops[i as usize];
        let target = if target_raw == GRID_VOID { 0 } else { target_raw };
        let out = quine_output(grid, i);
        if out == target {
            matches = matches + 1;
        }
        outputs.push(out);
        i = i + 1;
    }
    (outputs, matches)
}

/// Grid index of cell `c` of an 8x8 organism placed at (4, 4).
pub open spec fn organism_index(c: int) -> int {
    (4 + c / 8) * 16 + (4 + c % 8)
}

/// The op answered for organism cell `c`: nibble `c` of the two answer
/// words for the first 16 cells; the words hold nothing for later cells,
/// which read as 0.
pub open spec fn answered_op(r0: u32, r1: u32, c: int) -> u32 {
    if c < 8 {
        (r0 >> ((c * 4) as u32)) & 0xFu32
    } else if c < 16 {
        (r1 >> (((c - 8) * 4) as u32)) & 0xFu32
    } else {
        0
    }
}

/// Active organism cells among the first `k`.
pub open spec fn active_count(active: Seq<bool>, k: int) -> int
    decreases k,
{
    if k <= 0 {
        0
    } else {
        active_count(active, k - 1) + if active[organism_index(k - 1)] { 1int } else { 0int }
    }
}

/// Active organism cells among the first `k` whose answered op is their
/// own (void counting as 0).
pub open spec fn matching_count(cells: Seq<GateCell>, active: Seq<bool>, r0: u32, r1: u32, k: int) -> int
    decreases k,
{
    if k <= 0 {
        0
    } else {
        matching_count(cells, active, r0, r1, k - 1) + if active[organism_index(k - 1)] && answered_op(
            r0,
            r1,
            k - 1,
        ) == quine_expected(cells[k - 1].op) {
            1int
        } else {
            0int
        }
    }
}

/// Score of an 8x8 organism from its answer words: the number of active
/// cells (per `active`, the map of active grid cells) and how many of them
/// answer their own op.
pub fn organism_score(cells: &Vec<GateCell>, active: &Vec<bool>, r0: u32, r1: u32) -> (r: (usize, usize))
    requires
        cells@.len() == 64,
        active@.len() == QUINE_GRID_SIZE,
    ensures
        r.0 == active_count(active@, 64),
        r.1 == matching_count(cells@, active@, r0, r1, 64),
{
    let mut active_cells: usize = 0;
    let mut matches: usize = 0;
    let mut cell_idx: usize = 0;
    while cell_idx < 64
        invariant
            cell_idx <= 64,
            cells@.len() == 64,
            active@.len() == 256,
            active_cells == active_count(active@, cell_idx as int),
            matches == matching_count(cells@, active@, r0, r1, cell_idx as int),
            active_cells <= cell_idx,
            matches <= cell_idx,
        decreases 64 - cell_idx,
    {
        let org_x = cell_idx % 8;
        let org_y = cell_idx / 8;
        let grid_idx = (4 + org_y) * 16 + (4 + org_x);
        assert(grid_idx == organism_index(cell_idx as int));
        if active[grid_idx] {
            active_cells = active_cells + 1;
            let output_op = if cell_idx < 8 {
                (r0 >> ((cell_idx * 4) as u32)) & 0xF
            } else if cell_idx < 16 {
                (r1 >> (((cell_idx - 8) * 4) as u32)) & 0xF
            } else {
                0
            };
            let target_op = cells[cell_idx].op;
            let effective_target = if target_op == GRID_VOID { 0 } else { target_op };
            if output_op == effective_target {
                matches = matches + 1;
            }
        }
        cell_idx = cell_idx + 1;
    }
    (active_cells, matches)
}

} // verus!
