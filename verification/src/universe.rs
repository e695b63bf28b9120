//! The two-layer logical universe: a 128x128x128 volume with a "top" and a
//! "bottom" bit layer, stepped by a shader once per frame.
//!
//! This module holds what the host decides each frame: the pseudo-random
//! wiggle offset, which layer is updated and with which operation (the
//! sustain/carve schedule), the initial seeds, and the census that decides
//! when the universe has died (returned to the vacuum: top all 0, bottom
//! all 1).
use vstd::prelude::*;

verus! {

pub const DIM_X: u32 = 128;
pub const DIM_Y: u32 = 128;
pub const DIM_Z: u32 = 128;
/// Cells in the volume.
pub const VOLUME: usize = 2097152;

/// Step types handed to the shader.
pub const STEP_NOR: u32 = 2;
pub const STEP_NAND: u32 = 3;
pub const STEP_XOR: u32 = 4;
pub const STEP_XNOR: u32 = 5;

/// Frames between two censuses in an experiment.
pub const CENSUS_INTERVAL: u32 = 5;

/// The xorshift state that drives the wiggle of frame `frame`.
pub open spec fn wiggle_state(frame: u32) -> u32 {
    let s0 = (if frame + 123456789 > u32::MAX {
        frame + 123456789 - 0x1_0000_0000
    } else {
        frame + 123456789
    }) as u32;
    let s1 = s0 ^ (s0 << 13u32);
    let s2 = s1 ^ (s1 >> 17u32);
    s2 ^ (s2 << 5u32)
}

/// Whether frame `frame` updates the top layer (else the bottom one).
pub open spec fn frame_is_top(frame: u32) -> bool {
    (wiggle_state(frame) >> 6u32) % 2 == 0
}

/// Whether the `count`-th operation on a layer is a sustain operation
/// (XNOR on top, XOR on bottom): the first `threshold` of every `modulus`.
pub open spec fn is_sustain(count: int, modulus: int, threshold: int) -> bool {
    count % modulus < threshold
}

/// What the host hands to the shader for one frame.
#[derive(Clone, Copy, Debug, PartialEq, Eq)]
pub struct FramePlan {
    pub offset_x: i32,
    pub offset_y: i32,
    pub offset_z: i32,
    pub step_type: u32,
    /// Whether the top layer is the one updated.
    pub top_layer: bool,
}

/// The sustain/carve schedule: how many operations each layer has had.
pub struct UniverseSchedule {
    pub modulus: u32,
    pub sustain_threshold: u32,
    pub top_ops: u32,
    pub bottom_ops: u32,
}

/// The plan of frame `frame` under schedule counters `top_ops`/`bottom_ops`.
pub open spec fn plan_spec(frame: u32, modulus: u32, threshold: u32, top_ops: u32, bottom_ops: u32) -> FramePlan {
    let s = wiggle_state(frame);
    let top = frame_is_top(frame);
    FramePlan {
        offset_x: ((s % 3) as int - 1) as i32,
        offset_y: (((s >> 2u32) % 3) as int - 1) as i32,
        offset_z: (((s >> 4u32) % 3) as int - 1) as i32,
        step_type: if top {
            if is_sustain(top_ops as int, modulus as int, threshold as int) { STEP_XNOR } else { STEP_NOR }
        } else {
            if is_sustain(bottom_ops as int, modulus as int, threshold as int) { STEP_XOR } else { STEP_NAND }
        },
        top_layer: top,
    }
}

/// The xorshift state of frame `frame`.
pub fn wiggle(frame: u32) -> (r: u32)
    ensures
        r == wiggle_state(frame),
{
    let mut state = frame.wrapping_add(123456789);
    state = state ^ (state << 13u32);
    state = state ^ (state >> 17u32);
    state = state ^ (state << 5u32);
    state
}

impl UniverseSchedule {
    /// A schedule with no operation done yet.
    pub fn new(modulus: u32, sustain_threshold: u32) -> (s: UniverseSchedule)
        ensures
            s.modulus == modulus,
            s.sustain_threshold == sustain_threshold,
            s.top_ops == 0,
            s.bottom_ops == 0,
    {
        UniverseSchedule { modulus, sustain_threshold, top_ops: 0, bottom_ops: 0 }
    }

    /// Plans frame `frame`: the wiggle offsets, the layer and its operation,
    /// and counts the operation on that layer.
    pub fn plan_frame(&mut self, frame: u32) -> (p: FramePlan)
        requires
            old(self).modulus > 0,
            old(self).top_ops < u32::MAX,
            old(self).bottom_ops < u32::MAX,
        ensures
            p == plan_spec(
                frame,
                old(self).modulus,
                old(self).sustain_threshold,
                old(self).top_ops,
                old(self).bottom_ops,
            ),
            -1 <= p.offset_x <= 1,
            -1 <= p.offset_y <= 1,
            -1 <= p.offset_z <= 1,
            final(self).modulus == old(self).modulus,
            final(self).sustain_threshold == old(self).sustain_threshold,
            p.top_layer ==> final(self).top_ops == old(self).top_ops + 1 && final(self).bottom_ops
                == old(self).bottom_ops,
            !p.top_layer ==> final(self).bottom_ops == old(self).bottom_ops + 1 && final(self).top_ops
                == old(self).top_ops,
    {
        let state = wiggle(frame);
        let ox = (state % 3) as i32 - 1;
        let oy = ((state >> 2u32) % 3) as i32 - 1;
        let oz = ((state >> 4u32) % 3) as i32 - 1;
        let top = ((state >> 6u32) % 2) == 0;
        let step_type = if top {
            let op = if (self.top_ops % self.modulus) < self.sustain_threshold {
                STEP_XNOR
            } else {
                STEP_NOR
            };
            self.top_ops = self.top_ops + 1;
            op
        } else {
            let op = if (self.bottom_ops % self.modulus) < self.sustain_threshold {
                STEP_XOR
            } else {
                STEP_NAND
            };
            self.bottom_ops = self.bottom_ops + 1;
            op
        };
        FramePlan { offset_x: ox, offset_y: oy, offset_z: oz, step_type, top_layer: top }
    }
}

/// Name of a step type.
pub open spec fn step_name_spec(step_type: u32) -> Seq<char> {
    if step_type == STEP_XNOR {
        "XNOR"@
    } else if step_type == STEP_NOR {
        "NOR"@
    } else if step_type == STEP_XOR {
        "XOR"@
    } else {
        "NAND"@
    }
}

/// Name of a step type, as shown on a rendered frame.
pub fn step_name(step_type: u32) -> (r: &'static str)
    ensures
        r@ == step_name_spec(step_type),
{
    if step_type == STEP_XNOR {
        "XNOR"
    } else if step_type == STEP_NOR {
        "NOR"
    } else if step_type == STEP_XOR {
        "XOR"
    } else {
        "NAND"
    }
}

/// Number of sustain operations among the operations `start .. start + n`
/// of one layer.
pub open spec fn sustain_count(start: int, n: int, modulus: int, threshold: int) -> int
    decreases n,
{
    if n <= 0 {
        0
    } else {
        sustain_count(start, n - 1, modulus, threshold) + if is_sustain(
            start + n - 1,
            modulus,
            threshold,
        ) {
            1int
        } else {
            0int
        }
    }
}

proof fn lemma_sustain_prefix(k: int, j: int, modulus: int, threshold: int)
    requires
        modulus > 0,
        k >= 0,
        0 <= j <= modulus,
        threshold >= 0,
    ensures
        sustain_count(k * modulus, j, modulus, threshold) == if j < threshold { j } else { threshold },
    decreases j,
{
    if j > 0 {
        lemma_sustain_prefix(k, j - 1, modulus, threshold);
        assert((k * modulus + (j - 1)) % modulus == j - 1) by {
            assert(k * modulus == modulus * k) by (nonlinear_arith);
            vstd::arithmetic::div_mod::lemma_mod_multiples_vanish(k, j - 1, modulus);
            vstd::arithmetic::div_mod::lemma_small_mod((j - 1) as nat, modulus as nat);
        }
    }
}

/// Every cycle of `modulus` consecutive operations on a layer (starting at a
/// multiple of `modulus`) holds exactly `min(threshold, modulus)` sustain
/// operations, and they come first: the `j`-th operation of a cycle is a
/// sustain operation exactly when `j < threshold`.
pub proof fn lemma_sustain_per_cycle(k: int, j: int, modulus: u32, threshold: u32)
    requires
        modulus > 0,
        k >= 0,
        0 <= j < modulus,
    ensures
        sustain_count(k * modulus, modulus as int, modulus as int, threshold as int) == if threshold
            < modulus {
            threshold as int
        } else {
            modulus as int
        },
        is_sustain(k * modulus + j, modulus as int, threshold as int) <==> j < threshold,
{
    lemma_sustain_prefix(k, modulus as int, modulus as int, threshold as int);
    assert((k * modulus + j) % (modulus as int) == j) by {
        assert(k * modulus == modulus * k) by (nonlinear_arith);
        vstd::arithmetic::div_mod::lemma_mod_multiples_vanish(k, j, modulus as int);
        vstd::arithmetic::div_mod::lemma_small_mod(j as nat, modulus as nat);
    }
}

/// Whether cell `i` of the initial top layer is set: the two seeds, at the
/// centre (64, 64, 64) and at (12, 42, 7).
pub open spec fn initial_top_cell(i: int) -> u32 {
    if i == 1056832 || i == 120076 { 1 } else { 0 }
}

/// The initial layers: top all 0 but the two seeds, bottom all 1.
pub fn initial_layers() -> (r: (Vec<u32>, Vec<u32>))
    ensures
        r.0@.len() == VOLUME,
        r.1@.len() == VOLUME,
        forall|i: int| 0 <= i < VOLUME ==> #[trigger] r.0@[i] == initial_top_cell(i),
        forall|i: int| 0 <= i < VOLUME ==> #[trigger] r.1@[i] == 1,
{
    let mut top: Vec<u32> = Vec::with_capacity(VOLUME);
    let mut bottom: Vec<u32> = Vec::with_capacity(VOLUME);
    let cx = DIM_X / 2;
    let cy = DIM_Y / 2;
    let cz = DIM_Z / 2;
    let center = (cz * DIM_Y * DIM_X + cy * DIM_X + cx) as usize;
    let seed = (7 * DIM_Y * DIM_X + 42 * DIM_X + 12) as usize;
    let mut i: usize = 0;
    while i < VOLUME
        invariant
            i <= VOLUME,
            center == 1056832,
            seed == 120076,
            top@.len() == i,
            bottom@.len() == i,
            forall|k: int| 0 <= k < i ==> #[trigger] top@[k] == initial_top_cell(k),
            forall|k: int| 0 <= k < i ==> #[trigger] bottom@[k] == 1,
        decreases VOLUME - i,
    {
        if i == center || i == seed {
            top.push(1);
        } else {
            top.push(0);
        }
        bottom.push(1);
        i = i + 1;
    }
    (top, bottom)
}

/// Sum of a layer's cells.
pub open spec fn layer_sum(s: Seq<u32>) -> int
    decreases s.len(),
{
    if s.len() == 0 {
        0
    } else {
        layer_sum(s.drop_last()) + s.last()
    }
}

/// Number of cells of a layer that are 0.
pub open spec fn layer_zeros(s: Seq<u32>) -> int
    decreases s.len(),
{
    if s.len() == 0 {
        0
    } else {
        layer_zeros(s.drop_last()) + if s.last() == 0 { 1int } else { 0int }
    }
}

proof fn lemma_prefix_sum_le(s: Seq<u32>, i: int)
    requires
        0 <= i <= s.len(),
    ensures
        layer_sum(s.take(i)) <= layer_sum(s),
        layer_sum(s.take(i)) >= 0,
    decreases s.len() - i,
{
    if i == s.len() {
        assert(s.take(i) =~= s);
        lemma_sum_nonneg(s);
    } else {
        lemma_prefix_sum_le(s, i + 1);
        assert(s.take(i + 1).drop_last() =~= s.take(i));
        lemma_sum_nonneg(s.take(i));
    }
}

proof fn lemma_sum_nonneg(s: Seq<u32>)
    ensures
        layer_sum(s) >= 0,
    decreases s.len(),
{
    if s.len() > 0 {
        lemma_sum_nonneg(s.drop_last());
    }
}

/// The vacuum (top all 0, bottom all 1) has no active cell, so a census
/// of it ends the run.
pub proof fn lemma_vacuum_is_dead(n: nat)
    ensures
        layer_sum(Seq::new(n, |i: int| 0u32)) == 0,
        layer_zeros(Seq::new(n, |i: int| 1u32)) == 0,
    decreases n,
{
    if n > 0 {
        lemma_vacuum_is_dead((n - 1) as nat);
        assert(Seq::new(n, |i: int| 0u32).drop_last() =~= Seq::new((n - 1) as nat, |i: int| 0u32));
        assert(Seq::new(n, |i: int| 1u32).drop_last() =~= Seq::new((n - 1) as nat, |i: int| 1u32));
    }
}

/// Mass of the top layer: the sum of its cells.
pub fn top_mass(top: &Vec<u32>) -> (r: u32)
    requires
        layer_sum(top@) <= u32::MAX,
    ensures
        r == layer_sum(top@),
{
    let mut acc: u32 = 0;
    let mut i: usize = 0;
    while i < top.len()
        invariant
            i <= top@.len(),
            layer_sum(top@) <= u32::MAX,
            acc == layer_sum(top@.take(i as int)),
        decreases top@.len() - i,
    {
        proof {
            assert(top@.take(i + 1).drop_last() =~= top@.take(i as int));
            lemma_prefix_sum_le(top@, i + 1);
        }
        acc = acc + top[i];
        i = i + 1;
    }
    assert(top@.take(i as int) =~= top@);
    acc
}

/// Number of bottom cells that are 0 (the sum of `1 - cell`, cells being
/// bits).
pub fn bottom_zeros(bottom: &Vec<u32>) -> (r: u32)
    requires
        bottom@.len() <= u32::MAX,
        forall|i: int| 0 <= i < bottom@.len() ==> #[trigger] bottom@[i] <= 1,
    ensures
        r == layer_zeros(bottom@),
{
    let mut acc: u32 = 0;
    let mut i: usize = 0;
    while i < bottom.len()
        invariant
            i <= bottom@.len(),
            bottom@.len() <= u32::MAX,
            forall|k: int| 0 <= k < bottom@.len() ==> #[trigger] bottom@[k] <= 1,
            acc == layer_zeros(bottom@.take(i as int)),
            acc <= i,
        decreases bottom@.len() - i,
    {
        proof {
            assert(bottom@.take(i + 1).drop_last() =~= bottom@.take(i as int));
        }
        acc = acc + (1 - bottom[i]);
        i = i + 1;
    }
    assert(bottom@.take(i as int) =~= bottom@);
    acc
}

/// One experiment: a universe stepped until it dies or `max_frames` frames
/// have passed, with a census every `CENSUS_INTERVAL` frames.
pub struct SurvivalRun {
    pub schedule: UniverseSchedule,
    pub max_frames: u32,
    /// The next frame to plan.
    pub frame: u32,
    /// The frame at which the universe was found dead, or `max_frames`.
    pub survival_frame: u32,
    pub dead: bool,
}

impl SurvivalRun {
    pub open spec fn wf(&self) -> bool {
        &&& self.schedule.modulus > 0
        &&& self.frame <= self.max_frames
        &&& self.schedule.top_ops + self.schedule.bottom_ops == self.frame
    }

    pub fn new(modulus: u32, sustain_threshold: u32, max_frames: u32) -> (r: SurvivalRun)
        requires
            modulus > 0,
        ensures
            r.wf(),
            r.schedule.modulus == modulus,
            r.schedule.sustain_threshold == sustain_threshold,
            r.schedule.top_ops == 0,
            r.schedule.bottom_ops == 0,
            r.max_frames == max_frames,
            r.frame == 0,
            r.survival_frame == max_frames,
            !r.dead,
    {
        SurvivalRun {
            schedule: UniverseSchedule::new(modulus, sustain_threshold),
            max_frames,
            frame: 0,
            survival_frame: max_frames,
            dead: false,
        }
    }

    /// The plan of the next frame, or `None` once the universe is dead or
    /// the frame budget is spent.
    pub fn next_frame(&mut self) -> (p: Option<(u32, FramePlan)>)
        requires
            old(self).wf(),
        ensures
            final(self).wf(),
            final(self).max_frames == old(self).max_frames,
            final(self).dead == old(self).dead,
            final(self).survival_frame == old(self).survival_frame,
            (old(self).dead || old(self).frame == old(self).max_frames) ==> p is None && *final(self)
                == *old(self),
            !(old(self).dead || old(self).frame == old(self).max_frames) ==> p == Some((
                old(self).frame,
                plan_spec(
                    old(self).frame,
                    old(self).schedule.modulus,
                    old(self).schedule.sustain_threshold,
                    old(self).schedule.top_ops,
                    old(self).schedule.bottom_ops,
                ),
            )) && final(self).frame == old(self).frame + 1,
    {
        if self.dead || self.frame == self.max_frames {
            return None;
        }
        let frame = self.frame;
        let plan = self.schedule.plan_frame(frame);
        self.frame = frame + 1;
        Some((frame, plan))
    }

    /// Records the census taken after frame `frame`: the universe is dead
    /// when no top cell is set and no bottom cell is clear. Returns the
    /// number of active cells.
    pub fn record_census(&mut self, frame: u32, top_mass: u32, bottom_zeros: u32) -> (total: u32)
        requires
            old(self).wf(),
            top_mass + bottom_zeros <= u32::MAX,
        ensures
            final(self).wf(),
            total == top_mass + bottom_zeros,
            final(self).schedule == old(self).schedule,
            final(self).frame == old(self).frame,
            final(self).max_frames == old(self).max_frames,
            total == 0 ==> final(self).dead && final(self).survival_frame == frame,
            total != 0 ==> final(self).dead == old(self).dead && final(self).survival_frame == old(
                self,
            ).survival_frame,
    {
        let total = top_mass + bottom_zeros;
        if total == 0 {
            self.survival_frame = frame;
            self.dead = true;
        }
        total
    }
}

/// Whether an experiment takes a census after frame `frame`.
pub fn is_census_frame(frame: u32) -> (r: bool)
    ensures
        r == (frame % CENSUS_INTERVAL == 0),
{
    frame % CENSUS_INTERVAL == 0
}

} // verus!
