//! The two-layer "wiggle life" plane: a 1024x1024 top and bottom bit layer,
//! updated in turn while the read offset walks a fixed 2x2 cycle.
//!
//! The host decides, each frame, the offset, which layer is updated and with
//! which operation; it also colours the two layers for display.
use vstd::prelude::*;
use crate::universe::{layer_sum, top_mass};

verus! {

pub const LIFE_WIDTH: u32 = 1024;
pub const LIFE_HEIGHT: u32 = 1024;
/// Cells in one layer.
pub const LIFE_CELLS: usize = 1048576;

/// Step types: top layer AND, NOR, XNOR; bottom layer OR, NAND, XOR.
pub const LIFE_AND: u32 = 0;
pub const LIFE_OR: u32 = 1;
pub const LIFE_NOR: u32 = 2;
pub const LIFE_NAND: u32 = 3;
pub const LIFE_XOR: u32 = 4;
pub const LIFE_XNOR: u32 = 5;

/// Step `step` (0..8) of the movement cycle: `(offset_x, offset_y, axis)`,
/// axis 0 updating the top layer and 1 the bottom layer.
pub open spec fn life_move_spec(step: int) -> (int, int, int) {
    if step == 0 {
        (0, 1, 0)
    } else if step == 1 {
        (0, 2, 0)
    } else if step == 2 {
        (1, 2, 1)
    } else if step == 3 {
        (2, 2, 1)
    } else if step == 4 {
        (2, 1, 0)
    } else if step == 5 {
        (2, 0, 0)
    } else if step == 6 {
        (1, 0, 1)
    } else {
        (0, 0, 1)
    }
}

/// Operation of the `count`-th top update: AND, NOR, XNOR in turn.
pub open spec fn top_op_spec(count: int) -> u32 {
    if count % 3 == 0 {
        LIFE_AND
    } else if count % 3 == 1 {
        LIFE_NOR
    } else {
        LIFE_XNOR
    }
}

/// Operation of the `count`-th bottom update: OR, NAND, XOR in turn.
pub open spec fn bottom_op_spec(count: int) -> u32 {
    if count % 3 == 0 {
        LIFE_OR
    } else if count % 3 == 1 {
        LIFE_NAND
    } else {
        LIFE_XOR
    }
}

#[derive(Clone, Copy, Debug, PartialEq, Eq)]
pub struct LifePlan {
    pub offset_x: i32,
    pub offset_y: i32,
    pub step_type: u32,
    /// Whether the top layer is the one updated.
    pub top_layer: bool,
}

pub struct LifeSchedule {
    pub top_ops: u32,
    pub bottom_ops: u32,
}

/// The plan of frame `frame` with `top_ops` top and `bottom_ops` bottom
/// updates done before it.
pub open spec fn life_plan_spec(frame: u32, top_ops: u32, bottom_ops: u32) -> LifePlan {
    let (ox, oy, axis) = life_move_spec((frame % 8) as int);
    LifePlan {
        offset_x: ox as i32,
        offset_y: oy as i32,
        step_type: if axis == 0 { top_op_spec(top_ops as int) } else { bottom_op_spec(bottom_ops as int) },
        top_layer: axis == 0,
    }
}

/// Step `step` of the movement cycle.
pub fn life_move(step: u32) -> (r: (i32, i32, u32))
    requires
        step < 8,
    ensures
        (r.0 as int, r.1 as int, r.2 as int) == life_move_spec(step as int),
{
    match step {
        0 => (0, 1, 0),
        1 => (0, 2, 0),
        2 => (1, 2, 1),
        3 => (2, 2, 1),
        4 => (2, 1, 0),
        5 => (2, 0, 0),
        6 => (1, 0, 1),
        _ => (0, 0, 1),
    }
}

impl LifeSchedule {
    pub fn new() -> (s: LifeSchedule)
        ensures
            s.top_ops == 0,
            s.bottom_ops == 0,
    {
        LifeSchedule { top_ops: 0, bottom_ops: 0 }
    }

    /// Plans frame `frame` and counts the update on its layer.
    pub fn plan_frame(&mut self, frame: u32) -> (p: LifePlan)
        requires
            old(self).top_ops < u32::MAX,
            old(self).bottom_ops < u32::MAX,
        ensures
            p == life_plan_spec(frame, old(self).top_ops, old(self).bottom_ops),
            0 <= p.offset_x <= 2,
            0 <= p.offset_y <= 2,
            p.top_layer ==> final(self).top_ops == old(self).top_ops + 1 && final(self).bottom_ops
                == old(self).bottom_ops,
            !p.top_layer ==> final(self).bottom_ops == old(self).bottom_ops + 1 && final(self).top_ops
                == old(self).top_ops,
    {
        let (ox, oy, axis) = life_move(frame % 8);
        let step_type = if axis == 0 {
            let op = match self.top_ops % 3 {
                0 => LIFE_AND,
                1 => LIFE_NOR,
                _ => LIFE_XNOR,
            };
            self.top_ops = self.top_ops + 1;
            op
        } else {
            let op = match self.bottom_ops % 3 {
                0 => LIFE_OR,
                1 => LIFE_NAND,
                _ => LIFE_XOR,
            };
            self.bottom_ops = self.bottom_ops + 1;
            op
        };
        LifePlan { offset_x: ox, offset_y: oy, step_type, top_layer: axis == 0 }
    }
}

/// The movement is a cycle of 8 frames that updates each layer 4 times,
/// and each layer runs through its three operations in turn: the plan of a
/// frame is that of the frame 8 later, each layer having had 4 more updates,
/// and a layer's operation depends only on its update count modulo 3.
pub proof fn lemma_life_cycle(frame: u32, top_ops: u32, bottom_ops: u32)
    requires
        frame + 8 <= u32::MAX,
        top_ops + 12 <= u32::MAX,
        bottom_ops + 12 <= u32::MAX,
    ensures
        life_plan_spec(frame, top_ops, bottom_ops) == life_plan_spec(
            (frame + 8) as u32,
            (top_ops + 12) as u32,
            (bottom_ops + 12) as u32,
        ),
        forall|c: int| c >= 0 ==> #[trigger] top_op_spec(c) == top_op_spec(c + 3),
        forall|c: int| c >= 0 ==> #[trigger] bottom_op_spec(c) == bottom_op_spec(c + 3),
        ({
            let ups = seq![0int, 1, 2, 3, 4, 5, 6, 7].filter(|s: int| life_move_spec(s).2 == 0);
            ups.len() == 4
        }),
{
    assert((frame + 8) as u32 % 8 == frame % 8);
    let ups = seq![0int, 1, 2, 3, 4, 5, 6, 7].filter(|s: int| life_move_spec(s).2 == 0);
    reveal_with_fuel(Seq::filter, 9);
    assert(ups =~= seq![0int, 1, 4, 5]);
}

/// Distance of one move from the previous one (`|dx| + |dy|`).
pub open spec fn move_distance(p: (int, int, int), q: (int, int, int)) -> int {
    (if p.0 >= q.0 { p.0 - q.0 } else { q.0 - p.0 }) + (if p.1 >= q.1 { p.1 - q.1 } else { q.1 - p.1 })
}

/// The eight moves walk once around the ring of offsets about (1, 1): every
/// offset lies in 0..=2 on both axes and is not the centre, no two moves of
/// the cycle share an offset, each move is one unit step from the one
/// before it (the first from the last), and a move updates the top layer
/// exactly when it stepped along y.
pub proof fn lemma_life_walk()
    ensures
        forall|s: int|
            0 <= s < 8 ==> {
                let m = #[trigger] life_move_spec(s);
                0 <= m.0 <= 2 && 0 <= m.1 <= 2 && !(m.0 == 1 && m.1 == 1)
            },
        forall|s: int, t: int|
            0 <= s < t < 8 ==> (#[trigger] life_move_spec(s)).0 != (#[trigger] life_move_spec(t)).0
                || life_move_spec(s).1 != life_move_spec(t).1,
        forall|s: int|
            0 <= s < 8 ==> move_distance(#[trigger] life_move_spec(s), life_move_spec((s + 7) % 8)) == 1,
        forall|s: int|
            0 <= s < 8 ==> ((#[trigger] life_move_spec(s)).2 == 0 <==> life_move_spec(s).0 == life_move_spec(
                (s + 7) % 8,
            ).0),
{
    assert forall|s: int| 0 <= s < 8 implies move_distance(#[trigger] life_move_spec(s), life_move_spec((s + 7) % 8)) == 1
        && ((life_move_spec(s)).2 == 0 <==> life_move_spec(s).0 == life_move_spec((s + 7) % 8).0) by {
        if s == 0 {
            assert((s + 7) % 8 == 7);
        } else {
            assert((s + 7) % 8 == s - 1);
        }
    }
}

/// Display colour of a cell from its top and bottom bits.
pub open spec fn life_color_spec(t: u32, b: u32) -> (u8, u8, u8) {
    if t == 0 && b == 0 {
        (0, 0, 0)
    } else if t == 1 && b == 0 {
        (0, 0, 139)
    } else if t == 0 && b == 1 {
        (30, 144, 255)
    } else if t == 1 && b == 1 {
        (255, 255, 255)
    } else {
        (255, 0, 0)
    }
}

/// Display colour of a cell: black, dark blue (top only), medium blue
/// (bottom only), white (both); red for a value that is not a bit.
pub fn life_color(t: u32, b: u32) -> (r: (u8, u8, u8))
    ensures
        r == life_color_spec(t, b),
{
    if t == 0 && b == 0 {
        (0, 0, 0)
    } else if t == 1 && b == 0 {
        (0, 0, 139)
    } else if t == 0 && b == 1 {
        (30, 144, 255)
    } else if t == 1 && b == 1 {
        (255, 255, 255)
    } else {
        (255, 0, 0)
    }
}

/// The centre cell (512, 512) of a layer.
pub const LIFE_CENTER: usize = 524800;

/// The initial layers: top all 0 but its centre, bottom all 1 but its
/// centre.
pub fn life_initial_layers() -> (r: (Vec<u32>, Vec<u32>))
    ensures
        r.0@.len() == LIFE_CELLS,
        r.1@.len() == LIFE_CELLS,
        forall|i: int| 0 <= i < LIFE_CELLS ==> #[trigger] r.0@[i] == if i == LIFE_CENTER { 1u32 } else { 0u32 },
        forall|i: int| 0 <= i < LIFE_CELLS ==> #[trigger] r.1@[i] == if i == LIFE_CENTER { 0u32 } else { 1u32 },
{
    let mut top: Vec<u32> = Vec::with_capacity(LIFE_CELLS);
    let mut bottom: Vec<u32> = Vec::with_capacity(LIFE_CELLS);
    let center = ((LIFE_HEIGHT / 2) * LIFE_WIDTH + LIFE_WIDTH / 2) as usize;
    let mut i: usize = 0;
    while i < LIFE_CELLS
        invariant
            i <= LIFE_CELLS,
            center == LIFE_CENTER,
            top@.len() == i,
            bottom@.len() == i,
            forall|k: int| 0 <= k < i ==> #[trigger] top@[k] == if k == LIFE_CENTER { 1u32 } else { 0u32 },
            forall|k: int| 0 <= k < i ==> #[trigger] bottom@[k] == if k == LIFE_CENTER { 0u32 } else { 1u32 },
        decreases LIFE_CELLS - i,
    {
        if i == center {
            top.push(1);
            bottom.push(0);
        } else {
            top.push(0);
            bottom.push(1);
        }
        i = i + 1;
    }
    (top, bottom)
}

/// Positions `(x, y)` of the nonzero cells of a layer `LIFE_WIDTH` wide, in
/// index order.
pub open spec fn nonzero_points(s: Seq<u32>) -> Seq<(u32, u32)>
    decreases s.len(),
{
    if s.len() == 0 {
        Seq::empty()
    } else {
        let p = nonzero_points(s.drop_last());
        let i = s.len() - 1;
        if s.last() != 0 {
            p.push(((i % (LIFE_WIDTH as int)) as u32, (i / (LIFE_WIDTH as int)) as u32))
        } else {
            p
        }
    }
}

/// The census logged for a frame: the ones of each layer, and the positions
/// of the top layer's ones when there are between 1 and 19 of them.
pub struct LifeCensus {
    pub top_ones: u32,
    pub bottom_ones: u32,
    pub top_points: Vec<(u32, u32)>,
}

/// The census of a frame's two layers.
pub fn life_census(top: &Vec<u32>, bottom: &Vec<u32>) -> (r: LifeCensus)
    requires
        layer_sum(top@) <= u32::MAX,
        layer_sum(bottom@) <= u32::MAX,
        top@.len() <= u32::MAX + 1,
    ensures
        r.top_ones == layer_sum(top@),
        r.bottom_ones == layer_sum(bottom@),
        r.top_points@ == if 0 < r.top_ones < 20 { nonzero_points(top@) } else { Seq::empty() },
{
    let top_ones = top_mass(top);
    let bottom_ones = top_mass(bottom);
    let mut points: Vec<(u32, u32)> = Vec::new();
    if top_ones > 0 && top_ones < 20 {
        let mut i: usize = 0;
        while i < top.len()
            invariant
                i <= top@.len(),
                top@.len() <= u32::MAX + 1,
                points@ == nonzero_points(top@.take(i as int)),
            decreases top@.len() - i,
        {
            proof {
                assert(top@.take(i + 1).drop_last() =~= top@.take(i as int));
            }
            if top[i] != 0 {
                let k = i as u32;
                points.push((k % LIFE_WIDTH, k / LIFE_WIDTH));
            }
            i = i + 1;
        }
        proof {
            assert(top@.take(top@.len() as int) =~= top@);
        }
    }
    LifeCensus { top_ones, bottom_ones, top_points: points }
}

} // verus!
