//! A toroidal 2D grid of logic cells, stepped synchronously.
//!
//! Every cell holds an op (see `ops`), two direction fields and a one-word
//! state. In one step every gate cell reads the states of the two neighbours
//! its directions name and applies its truth table, every JUMP cell copies the
//! state of a distant cell, and every other cell becomes 0; all cells switch to
//! their new states at once. Forced inputs are re-applied after each step.
use vstd::prelude::*;
use crate::ops::{
    OP_VOID, OP_JUMP, OP_XOR, OP_AND, OP_NOR, OP_A, OP_TRUE, JUMP_DIR_N, JUMP_DIR_W,
    gate_output, lut_index, dir_offset_spec, jump_offset_spec, dir_to_offset, jump_offset, lemma_dir_offsets,
};

verus! {

/// 8-way reading directions of a gate cell.
pub const DIR_N: u32 = 0;
pub const DIR_NE: u32 = 1;
pub const DIR_E: u32 = 2;
pub const DIR_SE: u32 = 3;
pub const DIR_S: u32 = 4;
pub const DIR_SW: u32 = 5;
pub const DIR_W: u32 = 6;
pub const DIR_NW: u32 = 7;

#[derive(Clone, Copy, Debug)]
pub struct Cell {
    pub op: u32,
    pub dir_a: u32,
    pub dir_b: u32,
    pub state: u32,
}

/// `c` with its state replaced by `s`.
pub open spec fn with_state(c: Cell, s: u32) -> Cell {
    Cell { op: c.op, dir_a: c.dir_a, dir_b: c.dir_b, state: s }
}

impl Cell {
    pub fn void() -> (c: Cell)
        ensures
            c == (Cell { op: OP_VOID, dir_a: 0, dir_b: 0, state: 0 }),
    {
        Cell { op: OP_VOID, dir_a: 0, dir_b: 0, state: 0 }
    }

    pub fn new(op: u32, dir_a: u32, dir_b: u32) -> (c: Cell)
        ensures
            c == (Cell { op, dir_a, dir_b, state: 0 }),
    {
        Cell { op, dir_a, dir_b, state: 0 }
    }

    pub fn jump(direction: u32, distance: u32) -> (c: Cell)
        ensures
            c == (Cell { op: OP_JUMP, dir_a: direction, dir_b: distance, state: 0 }),
    {
        Cell { op: OP_JUMP, dir_a: direction, dir_b: distance, state: 0 }
    }
}

pub struct Grid {
    pub width: usize,
    pub height: usize,
    pub cells: Vec<Cell>,
}

/// A forced input: `(x, y, value)`.
pub type Input = (usize, usize, u32);

/// Coordinate `c` moved by `d` and wrapped into `0..n`, computed as in `i32`.
pub open spec fn wrap_spec(c: usize, d: int, n: usize) -> int {
    ((c as i32) as int + d) % (n as int)
}

/// Moving coordinate `c` by `d` stays within `i32`.
pub open spec fn shift_fits(c: usize, d: int) -> bool {
    i32::MIN <= (c as i32) as int + d <= i32::MAX
}

/// Neighbour of `(x, y)` in 8-way direction `dir` on a `w` x `h` torus.
pub open spec fn neighbor_spec(w: usize, h: usize, x: usize, y: usize, dir: u32) -> (int, int) {
    (wrap_spec(x, dir_offset_spec(dir).0, w), wrap_spec(y, dir_offset_spec(dir).1, h))
}

/// Cell read by a JUMP wire at `(x, y)` on a `w` x `h` torus.
pub open spec fn jump_target_spec(
    w: usize,
    h: usize,
    x: usize,
    y: usize,
    direction: u32,
    distance: u32,
) -> (int, int) {
    (
        wrap_spec(x, jump_offset_spec(direction, distance).0, w),
        wrap_spec(y, jump_offset_spec(direction, distance).1, h),
    )
}

/// A JUMP wire at `(x, y)` can compute its target without overflow.
pub open spec fn jump_fits(x: usize, y: usize, direction: u32, distance: u32) -> bool {
    &&& (direction == JUMP_DIR_N || direction == JUMP_DIR_W) ==> distance as i32 != i32::MIN
    &&& shift_fits(x, jump_offset_spec(direction, distance).0)
    &&& shift_fits(y, jump_offset_spec(direction, distance).1)
}

/// State of the cell at position `p` of a row-major grid of width `w`.
pub open spec fn state_at(cells: Seq<Cell>, w: usize, p: (int, int)) -> u32 {
    cells[p.1 * w + p.0].state
}

/// State that the cell at `(x, y)` takes in the next step.
pub open spec fn next_state(cells: Seq<Cell>, w: usize, h: usize, x: usize, y: usize) -> u32 {
    let c = cells[y * w + x];
    if c.op < 16 {
        gate_output(
            c.op,
            state_at(cells, w, neighbor_spec(w, h, x, y, c.dir_a)),
            state_at(cells, w, neighbor_spec(w, h, x, y, c.dir_b)),
        )
    } else if c.op == OP_JUMP {
        state_at(cells, w, jump_target_spec(w, h, x, y, c.dir_a, c.dir_b))
    } else {
        0
    }
}

/// The step from `cells` panics nowhere: every gate's truth-table index is a
/// valid shift and every JUMP target is computed without overflow.
pub open spec fn step_safe(cells: Seq<Cell>, w: usize, h: usize) -> bool {
    forall|x: usize, y: usize| x < w && y < h ==> #[trigger] cell_safe(cells, w, h, x, y)
}

/// The cell at `(x, y)` computes its next state without panicking.
pub open spec fn cell_safe(cells: Seq<Cell>, w: usize, h: usize, x: usize, y: usize) -> bool {
    let c = cells[y * w + x];
    &&& c.op < 16 ==> lut_index(
        state_at(cells, w, neighbor_spec(w, h, x, y, c.dir_a)),
        state_at(cells, w, neighbor_spec(w, h, x, y, c.dir_b)),
    ) < 32
    &&& c.op == OP_JUMP ==> jump_fits(x, y, c.dir_a, c.dir_b)
}

/// All cells switched to their next states (before forced inputs).
pub open spec fn advance(cells: Seq<Cell>, w: usize, h: usize) -> Seq<Cell> {
    Seq::new(
        cells.len(),
        |i: int| with_state(cells[i], next_state(cells, w, h, (i % (w as int)) as usize, (i / (w as int)) as usize)),
    )
}

/// `cells` with the forced inputs applied in order (a later input at the same
/// cell wins).
pub open spec fn apply_inputs(cells: Seq<Cell>, w: usize, inputs: Seq<Input>) -> Seq<Cell>
    decreases inputs.len(),
{
    if inputs.len() == 0 {
        cells
    } else {
        let c = apply_inputs(cells, w, inputs.drop_last());
        let (x, y, v) = inputs.last();
        c.update(y * w + x, with_state(c[y * w + x], v))
    }
}

/// Every forced input names a cell of a grid of width `w` with `len` cells.
pub open spec fn inputs_in_range(w: usize, len: int, inputs: Seq<Input>) -> bool {
    forall|k: int| 0 <= k < inputs.len() ==> (#[trigger] inputs[k]).1 * w + inputs[k].0 < len
}

/// One step with forced inputs.
pub open spec fn step_cells(cells: Seq<Cell>, w: usize, h: usize, inputs: Seq<Input>) -> Seq<Cell> {
    apply_inputs(advance(cells, w, h), w, inputs)
}

/// Cells after forcing the inputs once and then taking `t` steps with them.
pub open spec fn run_cells(cells: Seq<Cell>, w: usize, h: usize, inputs: Seq<Input>, t: nat) -> Seq<Cell>
    decreases t,
{
    if t == 0 {
        apply_inputs(cells, w, inputs)
    } else {
        step_cells(run_cells(cells, w, h, inputs, (t - 1) as nat), w, h, inputs)
    }
}

/// Cells after `t` steps without inputs.
pub open spec fn iterate_cells(cells: Seq<Cell>, w: usize, h: usize, t: nat) -> Seq<Cell>
    decreases t,
{
    if t == 0 {
        cells
    } else {
        step_cells(iterate_cells(cells, w, h, (t - 1) as nat), w, h, Seq::empty())
    }
}

/// The cell at `(x, y)` is no JUMP wire, or one that fits.
pub open spec fn jump_ok_at(cells: Seq<Cell>, w: usize, x: usize, y: usize) -> bool {
    cells[y * w + x].op == OP_JUMP ==> jump_fits(x, y, cells[y * w + x].dir_a, cells[y * w + x].dir_b)
}

/// `cells` with every state set to 0.
pub open spec fn cleared(cells: Seq<Cell>) -> Seq<Cell> {
    Seq::new(cells.len(), |i: int| with_state(cells[i], 0))
}

/// Only the states change in a step.
pub open spec fn same_layout(a: Seq<Cell>, b: Seq<Cell>) -> bool {
    &&& a.len() == b.len()
    &&& forall|i: int|
        0 <= i < a.len() ==> (#[trigger] a[i]).op == b[i].op && a[i].dir_a == b[i].dir_a
            && a[i].dir_b == b[i].dir_b
}

proof fn lemma_index_bounds(x: usize, y: usize, w: usize, h: usize)
    requires
        x < w,
        y < h,
    ensures
        y * w + x < w * h,
        0 <= y * w + x,
{
    assert(y * w + x < w * h) by (nonlinear_arith)
        requires
            x < w,
            y < h,
    ;
    assert(0 <= y * w) by (nonlinear_arith);
}

proof fn lemma_split_index(i: int, w: int, h: int)
    requires
        0 <= i < w * h,
        w > 0,
    ensures
        0 <= i % w < w,
        0 <= i / w < h,
        (i / w) * w + i % w == i,
{
    vstd::arithmetic::div_mod::lemma_fundamental_div_mod(i, w);
    vstd::arithmetic::div_mod::lemma_mod_bound(i, w);
    assert(0 <= i / w) by (nonlinear_arith)
        requires
            0 <= i,
            w > 0,
    ;
    assert(i / w < h) by (nonlinear_arith)
        requires
            i == w * (i / w) + i % w,
            0 <= i % w,
            i < w * h,
            w > 0,
    ;
    assert((i / w) * w == w * (i / w)) by (nonlinear_arith);
}

/// The index of `(x, y)` in a row-major grid of width `w` splits back into
/// `x` and `y`.
proof fn lemma_join_index(x: int, y: int, w: int)
    requires
        0 <= x < w,
        0 <= y,
    ensures
        (y * w + x) % w == x,
        (y * w + x) / w == y,
{
    assert(y * w + x == y * w + x);
    vstd::arithmetic::div_mod::lemma_fundamental_div_mod_converse(y * w + x, w, y, x);
}

proof fn lemma_apply_inputs_layout(cells: Seq<Cell>, w: usize, inputs: Seq<Input>)
    requires
        inputs_in_range(w, cells.len() as int, inputs),
    ensures
        same_layout(cells, apply_inputs(cells, w, inputs)),
    decreases inputs.len(),
{
    if inputs.len() > 0 {
        let rest = inputs.drop_last();
        assert forall|k: int| 0 <= k < rest.len() implies (#[trigger] rest[k]).1 * w + rest[k].0
            < cells.len() by {
            assert(rest[k] == inputs[k]);
        }
        lemma_apply_inputs_layout(cells, w, rest);
        assert(inputs.last() == inputs[inputs.len() - 1]);
    }
}

impl Grid {
    /// Width and height are positive and fit in `i32`, and there is one cell
    /// per position.
    pub open spec fn wf(&self) -> bool {
        &&& 0 < self.width <= i32::MAX
        &&& 0 < self.height <= i32::MAX
        &&& self.cells.len() == self.width * self.height
    }

    pub fn new(width: usize, height: usize) -> (g: Grid)
        requires
            width * height <= usize::MAX,
        ensures
            g.width == width,
            g.height == height,
            g.cells.len() == width * height,
            forall|i: int| 0 <= i < g.cells.len() ==> g.cells@[i] == Cell::void_spec(),
            0 < width <= i32::MAX && 0 < height <= i32::MAX ==> g.wf(),
    {
        let n = width * height;
        let cells = vec![Cell::void(); n];
        Grid { width, height, cells }
    }

    pub fn idx(&self, x: usize, y: usize) -> (r: usize)
        requires
            y * self.width + x <= usize::MAX,
        ensures
            r == y * self.width + x,
    {
        y * self.width + x
    }

    pub fn get(&self, x: usize, y: usize) -> (c: &Cell)
        requires
            y * self.width + x < self.cells.len(),
        ensures
            *c == self.cells@[y * self.width + x],
    {
        let i = self.idx(x, y);
        &self.cells[i]
    }

    pub fn get_mut(&mut self, x: usize, y: usize) -> (c: &mut Cell)
        requires
            y * old(self).width + x < old(self).cells.len(),
        ensures
            *c == old(self).cells@[y * old(self).width + x],
            final(self).width == old(self).width,
            final(self).height == old(self).height,
            final(self).cells@ == old(self).cells@.update(y * old(self).width + x, *final(c)),
    {
        let i = self.idx(x, y);
        &mut self.cells[i]
    }

    pub fn set(&mut self, x: usize, y: usize, cell: Cell)
        requires
            y * old(self).width + x < old(self).cells.len(),
        ensures
            final(self).width == old(self).width,
            final(self).height == old(self).height,
            final(self).cells@ == old(self).cells@.update(y * old(self).width + x, cell),
    {
        let i = self.idx(x, y);
        self.cells.set(i, cell);
    }

    pub fn set_state(&mut self, x: usize, y: usize, state: u32)
        requires
            y * old(self).width + x < old(self).cells.len(),
        ensures
            final(self).width == old(self).width,
            final(self).height == old(self).height,
            final(self).cells@ == old(self).cells@.update(
                y * old(self).width + x,
                with_state(old(self).cells@[y * old(self).width + x], state),
            ),
    {
        let i = self.idx(x, y);
        let mut c = self.cells[i];
        c.state = state;
        self.cells.set(i, c);
    }

    pub fn get_state(&self, x: usize, y: usize) -> (s: u32)
        requires
            y * self.width + x < self.cells.len(),
        ensures
            s == self.cells@[y * self.width + x].state,
    {
        self.cells[self.idx(x, y)].state
    }

    /// Neighbour of `(x, y)` in 8-way direction `dir`, wrapping at the edges.
    pub fn neighbor(&self, x: usize, y: usize, dir: u32) -> (r: (usize, usize))
        requires
            0 < self.width <= i32::MAX,
            0 < self.height <= i32::MAX,
            shift_fits(x, dir_offset_spec(dir).0),
            shift_fits(y, dir_offset_spec(dir).1),
        ensures
            (r.0 as int, r.1 as int) == neighbor_spec(self.width, self.height, x, y, dir),
            r.0 < self.width,
            r.1 < self.height,
    {
        let (dx, dy) = dir_to_offset(dir);
        let nx = wrap(x, dx, self.width);
        let ny = wrap(y, dy, self.height);
        (nx, ny)
    }

    /// Cell read by a JUMP wire at `(x, y)`, wrapping at the edges.
    pub fn jump_target(&self, x: usize, y: usize, direction: u32, distance: u32) -> (r: (usize, usize))
        requires
            0 < self.width <= i32::MAX,
            0 < self.height <= i32::MAX,
            jump_fits(x, y, direction, distance),
        ensures
            (r.0 as int, r.1 as int) == jump_target_spec(self.width, self.height, x, y, direction, distance),
            r.0 < self.width,
            r.1 < self.height,
    {
        let (dx, dy) = jump_offset(direction, distance);
        let nx = wrap(x, dx, self.width);
        let ny = wrap(y, dy, self.height);
        (nx, ny)
    }

    /// Next state of the cell at `(x, y)`.
    fn cell_next_state(&self, x: usize, y: usize) -> (s: u32)
        requires
            self.wf(),
            x < self.width,
            y < self.height,
            step_safe(self.cells@, self.width, self.height),
        ensures
            s == next_state(self.cells@, self.width, self.height, x, y),
    {
        proof {
            lemma_index_bounds(x, y, self.width, self.height);
            assert(cell_safe(self.cells@, self.width, self.height, x, y));
        }
        let cell = *self.get(x, y);
        if cell.op < 16 {
            let (ax, ay) = self.neighbor(x, y, cell.dir_a);
            let (bx, by) = self.neighbor(x, y, cell.dir_b);
            proof {
                lemma_index_bounds(ax, ay, self.width, self.height);
                lemma_index_bounds(bx, by, self.width, self.height);
            }
            let val_a = self.get_state(ax, ay);
            let val_b = self.get_state(bx, by);
            let lut_idx = (val_a << 1) | val_b;
            (cell.op >> lut_idx) & 1
        } else if cell.op == OP_JUMP {
            let (tx, ty) = self.jump_target(x, y, cell.dir_a, cell.dir_b);
            proof {
                lemma_index_bounds(tx, ty, self.width, self.height);
            }
            self.get_state(tx, ty)
        } else {
            0
        }
    }

    /// One synchronous step, then the forced inputs are applied again.
    pub fn step_with_inputs(&mut self, inputs: &[Input])
        requires
            old(self).wf(),
            step_safe(old(self).cells@, old(self).width, old(self).height),
            inputs_in_range(old(self).width, old(self).cells@.len() as int, inputs@),
        ensures
            final(self).width == old(self).width,
            final(self).height == old(self).height,
            final(self).cells@ == step_cells(old(self).cells@, old(self).width, old(self).height, inputs@),
    {
        let n = self.cells.len();
        let w = self.width;
        let h = self.height;
        let ghost old_cells = self.cells@;
        let mut new_states: Vec<u32> = Vec::new();
        let mut i: usize = 0;
        while i < n
            invariant
                self.wf(),
                self.cells@ == old_cells,
                self.width == w,
                self.height == h,
                n == w * h,
                i <= n,
                step_safe(old_cells, w, h),
                new_states.len() == i,
                forall|k: int|
                    0 <= k < i ==> #[trigger] new_states@[k] == next_state(
                        old_cells,
                        w,
                        h,
                        (k % (w as int)) as usize,
                        (k / (w as int)) as usize,
                    ),
            decreases n - i,
        {
            proof {
                lemma_split_index(i as int, w as int, h as int);
            }
            let x = i % w;
            let y = i / w;
            let s = self.cell_next_state(x, y);
            new_states.push(s);
            i = i + 1;
        }
        let mut j: usize = 0;
        while j < n
            invariant
                self.width == w,
                self.height == h,
                n == w * h,
                j <= n,
                new_states.len() == n,
                old_cells.len() == n,
                self.cells@.len() == n,
                forall|k: int| 0 <= k < j ==> #[trigger] self.cells@[k] == with_state(old_cells[k], new_states@[k]),
                forall|k: int| j <= k < n ==> #[trigger] self.cells@[k] == old_cells[k],
            decreases n - j,
        {
            let mut c = self.cells[j];
            c.state = new_states[j];
            self.cells.set(j, c);
            j = j + 1;
        }
        assert(self.cells@ == advance(old_cells, w, h));
        proof {
            assert(inputs_in_range(w, self.cells@.len() as int, inputs@));
        }
        self.force_inputs(inputs);
    }

    /// Sets the state of every forced input's cell, in order.
    fn force_inputs(&mut self, inputs: &[Input])
        requires
            inputs_in_range(old(self).width, old(self).cells@.len() as int, inputs@),
        ensures
            final(self).width == old(self).width,
            final(self).height == old(self).height,
            final(self).cells@ == apply_inputs(old(self).cells@, old(self).width, inputs@),
    {
        let ghost start = self.cells@;
        let w = self.width;
        let h = self.height;
        let n = self.cells.len();
        let mut k: usize = 0;
        while k < inputs.len()
            invariant
                self.width == w,
                self.height == h,
                start.len() == n,
                k <= inputs@.len(),
                inputs_in_range(w, n as int, inputs@),
                self.cells@ == apply_inputs(start, w, inputs@.subrange(0, k as int)),
            decreases inputs@.len() - k,
        {
            let (x, y, val) = inputs[k];
            let ghost prefix = inputs@.subrange(0, k as int);
            proof {
                assert(inputs_in_range(w, n as int, prefix)) by {
                    assert forall|q: int| 0 <= q < prefix.len() implies (#[trigger] prefix[q]).1 * w
                        + prefix[q].0 < n by {
                        assert(prefix[q] == inputs@[q]);
                    }
                }
                lemma_apply_inputs_layout(start, w, prefix);
                assert(inputs@[k as int].1 * w + inputs@[k as int].0 < n);
            }
            self.set_state(x, y, val);
            proof {
                let next = inputs@.subrange(0, k + 1);
                assert(next.drop_last() == prefix);
                assert(next.last() == inputs@[k as int]);
            }
            k = k + 1;
        }
        assert(inputs@.subrange(0, inputs@.len() as int) == inputs@);
    }

    /// Whether the cell at `(x, y)` computes its next state without panicking.
    fn cell_is_safe(&self, x: usize, y: usize) -> (r: bool)
        requires
            self.wf(),
            x < self.width,
            y < self.height,
        ensures
            r == cell_safe(self.cells@, self.width, self.height, x, y),
    {
        proof {
            lemma_index_bounds(x, y, self.width, self.height);
        }
        let cell = *self.get(x, y);
        if cell.op < 16 {
            let (ax, ay) = self.neighbor(x, y, cell.dir_a);
            let (bx, by) = self.neighbor(x, y, cell.dir_b);
            proof {
                lemma_index_bounds(ax, ay, self.width, self.height);
                lemma_index_bounds(bx, by, self.width, self.height);
            }
            let val_a = self.get_state(ax, ay);
            let val_b = self.get_state(bx, by);
            ((val_a << 1) | val_b) < 32
        } else if cell.op == OP_JUMP {
            let direction = cell.dir_a;
            let distance = cell.dir_b;
            proof {
                assert((distance as i32 == i32::MIN) == (distance == 0x8000_0000u32)) by (bit_vector);
            }
            if (direction == JUMP_DIR_N || direction == JUMP_DIR_W) && distance == 0x8000_0000u32 {
                return false;
            }
            let (dx, dy) = jump_offset(direction, distance);
            fits_i32(x, dx) && fits_i32(y, dy)
        } else {
            true
        }
    }

    /// Whether the next step panics nowhere (see `step_safe`).
    pub fn step_is_safe(&self) -> (r: bool)
        requires
            self.wf(),
        ensures
            r == step_safe(self.cells@, self.width, self.height),
    {
        let n = self.cells.len();
        let w = self.width;
        let h = self.height;
        let mut i: usize = 0;
        while i < n
            invariant
                self.wf(),
                self.width == w,
                self.height == h,
                n == w * h,
                i <= n,
                forall|k: int|
                    0 <= k < i ==> #[trigger] cell_safe(
                        self.cells@,
                        w,
                        h,
                        (k % (w as int)) as usize,
                        (k / (w as int)) as usize,
                    ),
            decreases n - i,
        {
            proof {
                lemma_split_index(i as int, w as int, h as int);
            }
            let x = i % w;
            let y = i / w;
            if !self.cell_is_safe(x, y) {
                return false;
            }
            i = i + 1;
        }
        assert forall|x: usize, y: usize| x < w && y < h implies #[trigger] cell_safe(self.cells@, w, h, x, y) by {
            lemma_index_bounds(x, y, w, h);
            lemma_join_index(x as int, y as int, w as int);
            let k = y * w + x;
            assert(cell_safe(self.cells@, w, h, (k % (w as int)) as usize, (k / (w as int)) as usize));
        }
        true
    }

    /// Whether every JUMP wire computes its target without overflow
    /// (see `jumps_fit`).
    pub fn jumps_in_range(&self) -> (r: bool)
        requires
            self.wf(),
        ensures
            r == jumps_fit(self.cells@, self.width, self.height),
    {
        let n = self.cells.len();
        let w = self.width;
        let h = self.height;
        let mut i: usize = 0;
        while i < n
            invariant
                self.wf(),
                self.width == w,
                self.height == h,
                n == w * h,
                i <= n,
                forall|k: int|
                    0 <= k < i ==> #[trigger] jump_ok_at(
                        self.cells@,
                        w,
                        (k % (w as int)) as usize,
                        (k / (w as int)) as usize,
                    ),
            decreases n - i,
        {
            proof {
                lemma_split_index(i as int, w as int, h as int);
            }
            let x = i % w;
            let y = i / w;
            let c = self.cells[i];
            proof {
                assert(self.cells@[y * w + x] == c);
            }
            if c.op == OP_JUMP {
                let direction = c.dir_a;
                let distance = c.dir_b;
                proof {
                    assert((distance as i32 == i32::MIN) == (distance == 0x8000_0000u32)) by (bit_vector);
                }
                if (direction == JUMP_DIR_N || direction == JUMP_DIR_W) && distance == 0x8000_0000u32 {
                    return false;
                }
                let (dx, dy) = jump_offset(direction, distance);
                if !(fits_i32(x, dx) && fits_i32(y, dy)) {
                    return false;
                }
            }
            i = i + 1;
        }
        assert forall|x: usize, y: usize|
            x < w && y < h && (#[trigger] self.cells@[y * w + x]).op == OP_JUMP implies jump_fits(
            x,
            y,
            self.cells@[y * w + x].dir_a,
            self.cells@[y * w + x].dir_b,
        ) by {
            lemma_index_bounds(x, y, w, h);
            lemma_join_index(x as int, y as int, w as int);
            let k = y * w + x;
            assert(jump_ok_at(self.cells@, w, (k % (w as int)) as usize, (k / (w as int)) as usize));
        }
        true
    }

    /// Sets every cell's state to 0.
    pub fn clear_states(&mut self)
        ensures
            final(self).width == old(self).width,
            final(self).height == old(self).height,
            final(self).cells@.len() == old(self).cells@.len(),
            forall|i: int|
                0 <= i < old(self).cells@.len() ==> #[trigger] final(self).cells@[i] == with_state(
                    old(self).cells@[i],
                    0,
                ),
    {
        let n = self.cells.len();
        let ghost start = self.cells@;
        let mut i: usize = 0;
        while i < n
            invariant
                self.width == old(self).width,
                self.height == old(self).height,
                start == old(self).cells@,
                self.cells@.len() == n,
                n == start.len(),
                i <= n,
                forall|k: int| 0 <= k < i ==> #[trigger] self.cells@[k] == with_state(start[k], 0),
                forall|k: int| i <= k < n ==> #[trigger] self.cells@[k] == start[k],
            decreases n - i,
        {
            let mut c = self.cells[i];
            c.state = 0;
            self.cells.set(i, c);
            i = i + 1;
        }
    }

    /// Forces the inputs once, then takes `steps` steps re-applying them after
    /// each step.
    pub fn run_with_inputs(&mut self, steps: usize, inputs: &[Input])
        requires
            old(self).wf(),
            inputs_in_range(old(self).width, old(self).cells@.len() as int, inputs@),
            forall|t: nat|
                t < steps ==> step_safe(
                    #[trigger] run_cells(old(self).cells@, old(self).width, old(self).height, inputs@, t),
                    old(self).width,
                    old(self).height,
                ),
        ensures
            final(self).width == old(self).width,
            final(self).height == old(self).height,
            final(self).cells@ == run_cells(old(self).cells@, old(self).width, old(self).height, inputs@, steps as nat),
    {
        let ghost start = self.cells@;
        let w = self.width;
        let h = self.height;
        self.force_inputs(inputs);
        proof {
            lemma_apply_inputs_layout(start, w, inputs@);
        }
        let mut t: usize = 0;
        while t < steps
            invariant
                self.width == w,
                self.height == h,
                0 < w <= i32::MAX,
                0 < h <= i32::MAX,
                start.len() == w * h,
                t <= steps,
                inputs_in_range(w, start.len() as int, inputs@),
                forall|u: nat| u < steps ==> step_safe(#[trigger] run_cells(start, w, h, inputs@, u), w, h),
                self.cells@ == run_cells(start, w, h, inputs@, t as nat),
            decreases steps - t,
        {
            proof {
                lemma_run_layout(start, w, h, inputs@, t as nat);
                assert(step_safe(run_cells(start, w, h, inputs@, t as nat), w, h));
            }
            self.step_with_inputs(inputs);
            t = t + 1;
        }
    }

    /// Takes `steps` steps without forced inputs.
    pub fn run(&mut self, steps: usize)
        requires
            old(self).wf(),
            forall|t: nat|
                t < steps ==> step_safe(
                    #[trigger] iterate_cells(old(self).cells@, old(self).width, old(self).height, t),
                    old(self).width,
                    old(self).height,
                ),
        ensures
            final(self).width == old(self).width,
            final(self).height == old(self).height,
            final(self).cells@ == iterate_cells(old(self).cells@, old(self).width, old(self).height, steps as nat),
    {
        let ghost start = self.cells@;
        let w = self.width;
        let h = self.height;
        let mut t: usize = 0;
        while t < steps
            invariant
                self.width == w,
                self.height == h,
                0 < w <= i32::MAX,
                0 < h <= i32::MAX,
                start.len() == w * h,
                t <= steps,
                forall|u: nat| u < steps ==> step_safe(#[trigger] iterate_cells(start, w, h, u), w, h),
                self.cells@ == iterate_cells(start, w, h, t as nat),
            decreases steps - t,
        {
            proof {
                lemma_iterate_layout(start, w, h, t as nat);
                assert(step_safe(iterate_cells(start, w, h, t as nat), w, h));
            }
            self.step();
            t = t + 1;
        }
    }

    /// One step without forced inputs.
    pub fn step(&mut self)
        requires
            old(self).wf(),
            step_safe(old(self).cells@, old(self).width, old(self).height),
        ensures
            final(self).width == old(self).width,
            final(self).height == old(self).height,
            final(self).cells@ == step_cells(old(self).cells@, old(self).width, old(self).height, Seq::empty()),
    {
        let no_inputs: Vec<Input> = Vec::new();
        self.step_with_inputs(no_inputs.as_slice());
    }
}

/// A step keeps the number of cells and every cell's op and directions.
pub proof fn lemma_step_layout(cells: Seq<Cell>, w: usize, h: usize, inputs: Seq<Input>)
    requires
        inputs_in_range(w, cells.len() as int, inputs),
    ensures
        same_layout(cells, step_cells(cells, w, h, inputs)),
{
    let adv = advance(cells, w, h);
    assert(same_layout(cells, adv));
    lemma_apply_inputs_layout(adv, w, inputs);
}

/// Running keeps the number of cells and every cell's op and directions.
pub proof fn lemma_run_layout(cells: Seq<Cell>, w: usize, h: usize, inputs: Seq<Input>, t: nat)
    requires
        inputs_in_range(w, cells.len() as int, inputs),
    ensures
        same_layout(cells, run_cells(cells, w, h, inputs, t)),
    decreases t,
{
    if t == 0 {
        lemma_apply_inputs_layout(cells, w, inputs);
    } else {
        let prev = run_cells(cells, w, h, inputs, (t - 1) as nat);
        lemma_run_layout(cells, w, h, inputs, (t - 1) as nat);
        lemma_step_layout(prev, w, h, inputs);
    }
}

/// Iterating keeps the number of cells and every cell's op and directions.
pub proof fn lemma_iterate_layout(cells: Seq<Cell>, w: usize, h: usize, t: nat)
    ensures
        same_layout(cells, iterate_cells(cells, w, h, t)),
    decreases t,
{
    if t > 0 {
        let prev = iterate_cells(cells, w, h, (t - 1) as nat);
        lemma_iterate_layout(cells, w, h, (t - 1) as nat);
        lemma_step_layout(prev, w, h, Seq::empty());
    }
}

/// Every state is below 16.
pub open spec fn states_small(cells: Seq<Cell>) -> bool {
    forall|i: int| 0 <= i < cells.len() ==> (#[trigger] cells[i]).state < 16
}

/// Every forced value is below 16.
pub open spec fn inputs_small(inputs: Seq<Input>) -> bool {
    forall|k: int| 0 <= k < inputs.len() ==> (#[trigger] inputs[k]).2 < 16
}

/// Every JUMP wire of the grid computes its target without overflow.
pub open spec fn jumps_fit(cells: Seq<Cell>, w: usize, h: usize) -> bool {
    forall|x: usize, y: usize|
        x < w && y < h && (#[trigger] cells[y * w + x]).op == OP_JUMP ==> jump_fits(
            x,
            y,
            cells[y * w + x].dir_a,
            cells[y * w + x].dir_b,
        )
}

proof fn lemma_small_lut(a: u32, b: u32)
    requires
        a < 16,
        b < 16,
    ensures
        lut_index(a, b) < 32,
{
    assert((a << 1u32) | b < 32) by (bit_vector)
        requires
            a < 16u32,
            b < 16u32,
    ;
}

proof fn lemma_gate_bit(op: u32, a: u32, b: u32)
    ensures
        gate_output(op, a, b) <= 1,
{
    let i = lut_index(a, b);
    assert((op >> i) & 1u32 <= 1) by (bit_vector);
}

proof fn lemma_apply_inputs_small(cells: Seq<Cell>, w: usize, inputs: Seq<Input>)
    requires
        states_small(cells),
        inputs_small(inputs),
        inputs_in_range(w, cells.len() as int, inputs),
    ensures
        states_small(apply_inputs(cells, w, inputs)),
    decreases inputs.len(),
{
    if inputs.len() > 0 {
        let rest = inputs.drop_last();
        assert forall|k: int| 0 <= k < rest.len() implies (#[trigger] rest[k]).1 * w + rest[k].0
            < cells.len() && rest[k].2 < 16 by {
            assert(rest[k] == inputs[k]);
        }
        lemma_apply_inputs_small(cells, w, rest);
        lemma_apply_inputs_layout(cells, w, rest);
        assert(inputs.last() == inputs[inputs.len() - 1]);
    }
}

/// When all states are below 16 and every JUMP wire fits, a step is safe.
pub proof fn lemma_small_states_safe(cells: Seq<Cell>, w: usize, h: usize)
    requires
        0 < w <= i32::MAX,
        0 < h <= i32::MAX,
        cells.len() == w * h,
        states_small(cells),
        jumps_fit(cells, w, h),
    ensures
        step_safe(cells, w, h),
{
    assert forall|x: usize, y: usize| x < w && y < h implies #[trigger] cell_safe(cells, w, h, x, y) by {
        let c = cells[y * w + x];
        let pa = neighbor_spec(w, h, x, y, c.dir_a);
        let pb = neighbor_spec(w, h, x, y, c.dir_b);
        lemma_neighbor_in_grid(w, h, x, y, c.dir_a);
        lemma_neighbor_in_grid(w, h, x, y, c.dir_b);
        lemma_small_lut(state_at(cells, w, pa), state_at(cells, w, pb));
    }
}

proof fn lemma_neighbor_in_grid(w: usize, h: usize, x: usize, y: usize, dir: u32)
    requires
        0 < w,
        0 < h,
    ensures
        0 <= neighbor_spec(w, h, x, y, dir).0 < w,
        0 <= neighbor_spec(w, h, x, y, dir).1 < h,
        0 <= neighbor_spec(w, h, x, y, dir).1 * w + neighbor_spec(w, h, x, y, dir).0 < w * h,
{
    let p = neighbor_spec(w, h, x, y, dir);
    vstd::arithmetic::div_mod::lemma_mod_bound((x as i32) as int + dir_offset_spec(dir).0, w as int);
    vstd::arithmetic::div_mod::lemma_mod_bound((y as i32) as int + dir_offset_spec(dir).1, h as int);
    lemma_index_bounds(p.0 as usize, p.1 as usize, w, h);
}

proof fn lemma_jump_in_grid(w: usize, h: usize, x: usize, y: usize, direction: u32, distance: u32)
    requires
        0 < w,
        0 < h,
    ensures
        0 <= jump_target_spec(w, h, x, y, direction, distance).0 < w,
        0 <= jump_target_spec(w, h, x, y, direction, distance).1 < h,
        0 <= jump_target_spec(w, h, x, y, direction, distance).1 * w + jump_target_spec(
            w,
            h,
            x,
            y,
            direction,
            distance,
        ).0 < w * h,
{
    let p = jump_target_spec(w, h, x, y, direction, distance);
    vstd::arithmetic::div_mod::lemma_mod_bound((x as i32) as int + jump_offset_spec(direction, distance).0, w as int);
    vstd::arithmetic::div_mod::lemma_mod_bound((y as i32) as int + jump_offset_spec(direction, distance).1, h as int);
    lemma_index_bounds(p.0 as usize, p.1 as usize, w, h);
}

/// Advancing small states gives small states: gates output single bits, JUMP
/// wires copy a state, other cells output 0.
pub proof fn lemma_advance_small(cells: Seq<Cell>, w: usize, h: usize)
    requires
        0 < w <= i32::MAX,
        0 < h <= i32::MAX,
        cells.len() == w * h,
        states_small(cells),
    ensures
        states_small(advance(cells, w, h)),
{
    let adv = advance(cells, w, h);
    assert forall|i: int| 0 <= i < adv.len() implies (#[trigger] adv[i]).state < 16 by {
        lemma_split_index(i, w as int, h as int);
        let x = (i % (w as int)) as usize;
        let y = (i / (w as int)) as usize;
        assert(cells[y * w + x] == cells[i]);
        let c = cells[i];
        if c.op < 16 {
            lemma_gate_bit(
                c.op,
                state_at(cells, w, neighbor_spec(w, h, x, y, c.dir_a)),
                state_at(cells, w, neighbor_spec(w, h, x, y, c.dir_b)),
            );
        } else if c.op == OP_JUMP {
            lemma_jump_in_grid(w, h, x, y, c.dir_a, c.dir_b);
        }
    }
}

/// Whether JUMP wires fit depends only on the layout.
pub proof fn lemma_jumps_fit_layout(a: Seq<Cell>, b: Seq<Cell>, w: usize, h: usize)
    requires
        a.len() == w * h,
        same_layout(a, b),
        jumps_fit(a, w, h),
    ensures
        jumps_fit(b, w, h),
{
    assert forall|x: usize, y: usize|
        x < w && y < h && (#[trigger] b[y * w + x]).op == OP_JUMP implies jump_fits(
        x,
        y,
        b[y * w + x].dir_a,
        b[y * w + x].dir_b,
    ) by {
        lemma_index_bounds(x, y, w, h);
        assert(a[y * w + x].op == OP_JUMP);
    }
}

/// Small states and small forced values make every step of a run safe:
/// the condition `run_with_inputs` asks for.
pub proof fn lemma_small_states_run(cells: Seq<Cell>, w: usize, h: usize, inputs: Seq<Input>, t: nat)
    requires
        0 < w <= i32::MAX,
        0 < h <= i32::MAX,
        cells.len() == w * h,
        states_small(cells),
        jumps_fit(cells, w, h),
        inputs_small(inputs),
        inputs_in_range(w, cells.len() as int, inputs),
    ensures
        step_safe(run_cells(cells, w, h, inputs, t), w, h),
        states_small(run_cells(cells, w, h, inputs, t)),
        jumps_fit(run_cells(cells, w, h, inputs, t), w, h),
        run_cells(cells, w, h, inputs, t).len() == cells.len(),
    decreases t,
{
    let cur = run_cells(cells, w, h, inputs, t);
    lemma_run_layout(cells, w, h, inputs, t);
    lemma_jumps_fit_layout(cells, cur, w, h);
    if t == 0 {
        lemma_apply_inputs_small(cells, w, inputs);
    } else {
        lemma_small_states_run(cells, w, h, inputs, (t - 1) as nat);
        let prev = run_cells(cells, w, h, inputs, (t - 1) as nat);
        lemma_advance_small(prev, w, h);
        lemma_apply_inputs_small(advance(prev, w, h), w, inputs);
    }
    lemma_small_states_safe(cur, w, h);
}

/// Whether moving `c` by `d` stays within `i32`.
fn fits_i32(c: usize, d: i32) -> (r: bool)
    ensures
        r == shift_fits(c, d as int),
{
    let s = (c as i32) as i64 + (d as i64);
    s >= (i32::MIN as i64) && s <= (i32::MAX as i64)
}

/// `c + d` wrapped into `0..n`, computed in `i32` as the grid does.
fn wrap(c: usize, d: i32, n: usize) -> (r: usize)
    requires
        0 < n <= i32::MAX,
        shift_fits(c, d as int),
    ensures
        r as int == wrap_spec(c, d as int, n),
        r < n,
{
    let s = (c as i32) + d;
    let m = n as i32;
    let r = match s.checked_rem_euclid(m) {
        Some(v) => v,
        None => 0,
    };
    proof {
        vstd::arithmetic::div_mod::lemma_mod_bound(s as int, m as int);
    }
    r as usize
}

impl Cell {
    pub open spec fn void_spec() -> Cell {
        Cell { op: OP_VOID, dir_a: 0, dir_b: 0, state: 0 }
    }
}

/// Moving back by `d` from coordinate `c` moved by `d` and wrapped returns
/// to `c`.
proof fn lemma_wrap_back(c: usize, d: int, n: usize)
    requires
        c < n <= i32::MAX,
        -1 <= d <= 1,
    ensures
        0 <= wrap_spec(c, d, n) < n,
        wrap_spec(wrap_spec(c, d, n) as usize, -d, n) == c,
{
    let p = wrap_spec(c, d, n);
    assert((c as i32) as int == c);
    vstd::arithmetic::div_mod::lemma_mod_bound(c + d, n as int);
    assert((p as usize as i32) as int == p);
    vstd::arithmetic::div_mod::lemma_fundamental_div_mod(c + d, n as int);
    let q = (c + d) / (n as int);
    assert(p - d == c - (n as int) * q);
    vstd::arithmetic::div_mod::lemma_mod_multiples_vanish(-q, c as int, n as int);
    assert((n as int) * (-q) + c == c - (n as int) * q) by (nonlinear_arith);
    vstd::arithmetic::div_mod::lemma_small_mod(c as nat, n as nat);
}

/// Neighbours on the torus are mutual: the neighbour in direction `dir` lies
/// on the grid, and its neighbour in the opposite direction `(dir + 4) % 8`
/// is the cell itself.
pub proof fn lemma_neighbor_inverse(w: usize, h: usize, x: usize, y: usize, dir: u32)
    requires
        0 < w <= i32::MAX,
        0 < h <= i32::MAX,
        x < w,
        y < h,
        dir < 8,
    ensures
        ({
            let p = neighbor_spec(w, h, x, y, dir);
            &&& 0 <= p.0 < w
            &&& 0 <= p.1 < h
            &&& neighbor_spec(w, h, p.0 as usize, p.1 as usize, ((dir + 4) % 8) as u32) == (x as int, y as int)
        }),
{
    lemma_dir_offsets(dir);
    let d = dir_offset_spec(dir);
    lemma_wrap_back(x, d.0, w);
    lemma_wrap_back(y, d.1, h);
}

/// A JUMP wire's target lies on the grid, and a wire with no valid
/// direction (4 and above) reads its own cell.
pub proof fn lemma_jump_target_bounds(w: usize, h: usize, x: usize, y: usize, direction: u32, distance: u32)
    requires
        0 < w <= i32::MAX,
        0 < h <= i32::MAX,
        x < w,
        y < h,
    ensures
        0 <= jump_target_spec(w, h, x, y, direction, distance).0 < w,
        0 <= jump_target_spec(w, h, x, y, direction, distance).1 < h,
        direction >= 4 ==> jump_target_spec(w, h, x, y, direction, distance) == (x as int, y as int),
{
    let o = jump_offset_spec(direction, distance);
    vstd::arithmetic::div_mod::lemma_mod_bound((x as i32) as int + o.0, w as int);
    vstd::arithmetic::div_mod::lemma_mod_bound((y as i32) as int + o.1, h as int);
    assert((x as i32) as int == x);
    assert((y as i32) as int == y);
    vstd::arithmetic::div_mod::lemma_small_mod(x as nat, w as nat);
    vstd::arithmetic::div_mod::lemma_small_mod(y as nat, h as nat);
}

} // verus!
