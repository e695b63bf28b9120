//! Operation codes of logic-grid cells.
//!
//! A cell's `op` selects its behaviour:
//! - 0..=15: a two-input gate whose op value is its own truth table
//!   (bit `i` of the op is the output for input index `i = (a << 1) | b`);
//! - 16: VOID, an empty cell;
//! - 17: JUMP, a long-range wire.
use vstd::prelude::*;

verus! {

pub const OP_FALSE: u32 = 0b0000;
pub const OP_NOR: u32 = 0b0001;
pub const OP_AND_NOT_A: u32 = 0b0010;
pub const OP_NOT_A: u32 = 0b0011;
pub const OP_AND_NOT_B: u32 = 0b0100;
pub const OP_NOT_B: u32 = 0b0101;
pub const OP_XOR: u32 = 0b0110;
pub const OP_NAND: u32 = 0b0111;
pub const OP_AND: u32 = 0b1000;
pub const OP_XNOR: u32 = 0b1001;
pub const OP_B: u32 = 0b1010;
pub const OP_OR_NOT_A: u32 = 0b1011;
pub const OP_A: u32 = 0b1100;
pub const OP_OR_NOT_B: u32 = 0b1101;
pub const OP_OR: u32 = 0b1110;
pub const OP_TRUE: u32 = 0b1111;

pub const OP_VOID: u32 = 16;
pub const OP_JUMP: u32 = 17;

pub const JUMP_DIR_N: u32 = 0;
pub const JUMP_DIR_E: u32 = 1;
pub const JUMP_DIR_S: u32 = 2;
pub const JUMP_DIR_W: u32 = 3;

/// Index into a gate's truth table for the input pair `(a, b)`.
pub open spec fn lut_index(val_a: u32, val_b: u32) -> u32 {
    (val_a << 1u32) | val_b
}

/// Output of op `op` on inputs `val_a`, `val_b`: the truth-table bit for gates,
/// 0 for VOID, JUMP and unknown ops.
pub open spec fn gate_output(op: u32, val_a: u32, val_b: u32) -> u32 {
    if op < 16 {
        (op >> lut_index(val_a, val_b)) & 1u32
    } else {
        0
    }
}

pub fn is_logic_gate(op: u32) -> (r: bool)
    ensures
        r == (op < 16),
{
    op < 16
}

pub fn is_void(op: u32) -> (r: bool)
    ensures
        r == (op == OP_VOID),
{
    op == OP_VOID
}

pub fn is_jump(op: u32) -> (r: bool)
    ensures
        r == (op == OP_JUMP),
{
    op == OP_JUMP
}

pub fn is_wire(op: u32) -> (r: bool)
    ensures
        r == (op == OP_A || op == OP_B),
{
    op == OP_A || op == OP_B
}

/// Name of each op code.
pub open spec fn op_name_spec(op: u32) -> Seq<char> {
    if op == 0 { "FALSE"@ }
    else if op == 1 { "NOR"@ }
    else if op == 2 { "AND_NOT_A"@ }
    else if op == 3 { "NOT_A"@ }
    else if op == 4 { "AND_NOT_B"@ }
    else if op == 5 { "NOT_B"@ }
    else if op == 6 { "XOR"@ }
    else if op == 7 { "NAND"@ }
    else if op == 8 { "AND"@ }
    else if op == 9 { "XNOR"@ }
    else if op == 10 { "B"@ }
    else if op == 11 { "OR_NOT_A"@ }
    else if op == 12 { "A"@ }
    else if op == 13 { "OR_NOT_B"@ }
    else if op == 14 { "OR"@ }
    else if op == 15 { "TRUE"@ }
    else if op == 16 { "VOID"@ }
    else if op == 17 { "JUMP"@ }
    else { "UNKNOWN"@ }
}

pub fn op_name(op: u32) -> (r: &'static str)
    ensures
        r@ == op_name_spec(op),
{
    match op {
        0 => "FALSE",
        1 => "NOR",
        2 => "AND_NOT_A",
        3 => "NOT_A",
        4 => "AND_NOT_B",
        5 => "NOT_B",
        6 => "XOR",
        7 => "NAND",
        8 => "AND",
        9 => "XNOR",
        10 => "B",
        11 => "OR_NOT_A",
        12 => "A",
        13 => "OR_NOT_B",
        14 => "OR",
        15 => "TRUE",
        16 => "VOID",
        17 => "JUMP",
        _ => "UNKNOWN",
    }
}


/// The length and the first and last characters of a name.
pub open spec fn name_fingerprint(s: Seq<char>) -> (int, char, char) {
    (s.len() as int, s[0], s[s.len() - 1])
}

/// Op names are told apart: the codes 0 to 17 have pairwise different names,
/// and exactly the codes above 17 are named "UNKNOWN".
pub proof fn lemma_op_names_distinct()
    ensures
        forall|i: u32, j: u32| i <= 17 && j <= 17 && i != j ==> #[trigger] op_name_spec(i) != #[trigger] op_name_spec(j),
        forall|op: u32| #[trigger] op_name_spec(op) == "UNKNOWN"@ <==> op > 17,
{
    reveal_strlit("FALSE");
    reveal_strlit("NOR");
    reveal_strlit("AND_NOT_A");
    reveal_strlit("NOT_A");
    reveal_strlit("AND_NOT_B");
    reveal_strlit("NOT_B");
    reveal_strlit("XOR");
    reveal_strlit("NAND");
    reveal_strlit("AND");
    reveal_strlit("XNOR");
    reveal_strlit("B");
    reveal_strlit("OR_NOT_A");
    reveal_strlit("A");
    reveal_strlit("OR_NOT_B");
    reveal_strlit("OR");
    reveal_strlit("TRUE");
    reveal_strlit("VOID");
    reveal_strlit("JUMP");
    reveal_strlit("UNKNOWN");
    assert forall|i: u32, j: u32| i <= 17 && j <= 17 && i != j implies #[trigger] op_name_spec(i) != #[trigger] op_name_spec(j) by {
        if op_name_spec(i) == op_name_spec(j) {
            assert(name_fingerprint(op_name_spec(i)) == name_fingerprint(op_name_spec(j)));
        }
    }
    assert forall|op: u32| #[trigger] op_name_spec(op) == "UNKNOWN"@ <==> op > 17 by {
        if op <= 17 && op_name_spec(op) == "UNKNOWN"@ {
            assert(name_fingerprint(op_name_spec(op)) == name_fingerprint("UNKNOWN"@));
        }
    }
}

/// Compact display symbol of each op code.
pub open spec fn op_symbol_spec(op: u32) -> Seq<char> {
    if op == 0 { "0"@ }
    else if op == 1 { "⊽"@ }
    else if op == 2 { "↚"@ }
    else if op == 3 { "¬A"@ }
    else if op == 4 { "↛"@ }
    else if op == 5 { "¬B"@ }
    else if op == 6 { "⊕"@ }
    else if op == 7 { "⊼"@ }
    else if op == 8 { "∧"@ }
    else if op == 9 { "⊙"@ }
    else if op == 10 { "→B"@ }
    else if op == 11 { "→"@ }
    else if op == 12 { "→A"@ }
    else if op == 13 { "←"@ }
    else if op == 14 { "∨"@ }
    else if op == 15 { "1"@ }
    else if op == 16 { "·"@ }
    else if op == 17 { "⟿"@ }
    else { "?"@ }
}

pub fn op_symbol(op: u32) -> (r: &'static str)
    ensures
        r@ == op_symbol_spec(op),
{
    match op {
        0 => "0",
        1 => "⊽",
        2 => "↚",
        3 => "¬A",
        4 => "↛",
        5 => "¬B",
        6 => "⊕",
        7 => "⊼",
        8 => "∧",
        9 => "⊙",
        10 => "→B",
        11 => "→",
        12 => "→A",
        13 => "←",
        14 => "∨",
        15 => "1",
        16 => "·",
        17 => "⟿",
        _ => "?",
    }
}

/// Op symbols are told apart: the codes 0 to 17 have pairwise different
/// symbols, and exactly the codes above 17 show "?".
pub proof fn lemma_op_symbols_distinct()
    ensures
        forall|i: u32, j: u32|
            i <= 17 && j <= 17 && i != j ==> #[trigger] op_symbol_spec(i) != #[trigger] op_symbol_spec(j),
        forall|op: u32| #[trigger] op_symbol_spec(op) == "?"@ <==> op > 17,
{
    reveal_strlit("0");
    reveal_strlit("⊽");
    reveal_strlit("↚");
    reveal_strlit("¬A");
    reveal_strlit("↛");
    reveal_strlit("¬B");
    reveal_strlit("⊕");
    reveal_strlit("⊼");
    reveal_strlit("∧");
    reveal_strlit("⊙");
    reveal_strlit("→B");
    reveal_strlit("→");
    reveal_strlit("→A");
    reveal_strlit("←");
    reveal_strlit("∨");
    reveal_strlit("1");
    reveal_strlit("·");
    reveal_strlit("⟿");
    reveal_strlit("?");
    assert forall|i: u32, j: u32| i <= 17 && j <= 17 && i != j implies #[trigger] op_symbol_spec(i)
        != #[trigger] op_symbol_spec(j) by {
        if op_symbol_spec(i) == op_symbol_spec(j) {
            assert(name_fingerprint(op_symbol_spec(i)) == name_fingerprint(op_symbol_spec(j)));
        }
    }
    assert forall|op: u32| #[trigger] op_symbol_spec(op) == "?"@ <==> op > 17 by {
        if op <= 17 && op_symbol_spec(op) == "?"@ {
            assert(name_fingerprint(op_symbol_spec(op)) == name_fingerprint("?"@));
        }
    }
}

/// The op classes partition the known codes: a code is at most one of a
/// logic gate (below 16), VOID and JUMP, it is one of them exactly when it
/// is at most 17, and exactly then it has a name other than "UNKNOWN".
pub proof fn lemma_op_classes(op: u32)
    ensures
        !((op < 16 && op == OP_VOID) || (op < 16 && op == OP_JUMP) || (op == OP_VOID && op == OP_JUMP)),
        (op < 16 || op == OP_VOID || op == OP_JUMP) <==> op <= 17,
        op <= 17 <==> op_name_spec(op) != "UNKNOWN"@,
{
    lemma_op_names_distinct();
    assert(op_name_spec(op) == "UNKNOWN"@ <==> op > 17);
}

/// Evaluates op `op` on the input bits `val_a`, `val_b`.
/// The truth-table index `(val_a << 1) | val_b` must be a valid shift amount.
pub fn eval_gate(op: u32, val_a: u32, val_b: u32) -> (r: u32)
    requires
        op < 16 ==> lut_index(val_a, val_b) < 32,
    ensures
        r == gate_output(op, val_a, val_b),
        r <= 1,
{
    if op < 16 {
        let lut_idx = (val_a << 1) | val_b;
        let r = (op >> lut_idx) & 1;
        assert(r <= 1) by (bit_vector)
            requires r == (op >> lut_idx) & 1u32;
        r
    } else {
        0
    }
}

/// On bit inputs, every gate op outputs the bit of its own truth table at
/// position `2 * a + b`.
pub proof fn lemma_gate_is_truth_table(op: u32, a: u32, b: u32)
    requires
        op < 16,
        a <= 1,
        b <= 1,
    ensures
        gate_output(op, a, b) == (op / pow2_u32((2 * a + b) as u32)) % 2,
        lut_index(a, b) == 2 * a + b,
{
    assert(lut_index(a, b) == 2 * a + b) by (bit_vector)
        requires a <= 1u32, b <= 1u32;
    assert(a == 0 && b == 0 || a == 0 && b == 1 || a == 1 && b == 0 || a == 1 && b == 1);
    if a == 0 && b == 0 {
        assert((op >> 0u32) & 1u32 == op % 2) by (bit_vector);
    } else if a == 0 && b == 1 {
        assert((op >> 1u32) & 1u32 == (op / 2) % 2) by (bit_vector);
    } else if a == 1 && b == 0 {
        assert((op >> 2u32) & 1u32 == (op / 4) % 2) by (bit_vector);
    } else {
        assert((op >> 3u32) & 1u32 == (op / 8) % 2) by (bit_vector);
    }
}

/// `2^k` for the truth-table positions 0..=3.
pub open spec fn pow2_u32(k: u32) -> u32 {
    if k == 0 { 1 } else if k == 1 { 2 } else if k == 2 { 4 } else if k == 3 { 8 } else { 0 }
}

/// The named gate constants compute the Boolean functions their names say.
pub proof fn lemma_named_gates(a: u32, b: u32)
    requires
        a <= 1,
        b <= 1,
    ensures
        gate_output(OP_FALSE, a, b) == 0,
        gate_output(OP_TRUE, a, b) == 1,
        gate_output(OP_AND, a, b) == a & b,
        gate_output(OP_OR, a, b) == a | b,
        gate_output(OP_XOR, a, b) == a ^ b,
        gate_output(OP_NAND, a, b) == 1 - (a & b),
        gate_output(OP_NOR, a, b) == 1 - (a | b),
        gate_output(OP_XNOR, a, b) == 1 - (a ^ b),
        gate_output(OP_A, a, b) == a,
        gate_output(OP_B, a, b) == b,
        gate_output(OP_NOT_A, a, b) == 1 - a,
        gate_output(OP_NOT_B, a, b) == 1 - b,
        gate_output(OP_AND_NOT_A, a, b) == (a ^ 1u32) & b,
        gate_output(OP_AND_NOT_B, a, b) == a & (b ^ 1u32),
        gate_output(OP_OR_NOT_A, a, b) == (a ^ 1u32) | b,
        gate_output(OP_OR_NOT_B, a, b) == a | (b ^ 1u32),
{
    assert(a == 0 || a == 1);
    assert(b == 0 || b == 1);
    assert(
        (0u32 >> ((a << 1u32) | b)) & 1u32 == 0
        && (15u32 >> ((a << 1u32) | b)) & 1u32 == 1
        && (8u32 >> ((a << 1u32) | b)) & 1u32 == a & b
        && (14u32 >> ((a << 1u32) | b)) & 1u32 == a | b
        && (6u32 >> ((a << 1u32) | b)) & 1u32 == a ^ b
        && (7u32 >> ((a << 1u32) | b)) & 1u32 == 1 - (a & b)
        && (1u32 >> ((a << 1u32) | b)) & 1u32 == 1 - (a | b)
        && (9u32 >> ((a << 1u32) | b)) & 1u32 == 1 - (a ^ b)
        && (12u32 >> ((a << 1u32) | b)) & 1u32 == a
        && (10u32 >> ((a << 1u32) | b)) & 1u32 == b
        && (3u32 >> ((a << 1u32) | b)) & 1u32 == 1 - a
        && (5u32 >> ((a << 1u32) | b)) & 1u32 == 1 - b
        && (2u32 >> ((a << 1u32) | b)) & 1u32 == (a ^ 1u32) & b
        && (4u32 >> ((a << 1u32) | b)) & 1u32 == a & (b ^ 1u32)
        && (11u32 >> ((a << 1u32) | b)) & 1u32 == (a ^ 1u32) | b
        && (13u32 >> ((a << 1u32) | b)) & 1u32 == a | (b ^ 1u32)
    ) by (bit_vector)
        requires a <= 1u32, b <= 1u32;
}

/// Offset `(dx, dy)` of a JUMP wire in `direction` (0=N, 1=E, 2=S, 3=W) over
/// `distance` cells; other directions give `(0, 0)`.
pub open spec fn jump_offset_spec(direction: u32, distance: u32) -> (int, int) {
    let d = (distance as i32) as int;
    if direction == JUMP_DIR_N { (0, -d) }
    else if direction == JUMP_DIR_E { (d, 0) }
    else if direction == JUMP_DIR_S { (0, d) }
    else if direction == JUMP_DIR_W { (-d, 0) }
    else { (0, 0) }
}

/// Offset of a JUMP wire. The distance is reinterpreted as `i32`; negating the
/// one distance whose reinterpretation is `i32::MIN` would overflow.
pub fn jump_offset(direction: u32, distance: u32) -> (r: (i32, i32))
    requires
        (direction == JUMP_DIR_N || direction == JUMP_DIR_W) ==> distance as i32 != i32::MIN,
    ensures
        (r.0 as int, r.1 as int) == jump_offset_spec(direction, distance),
        distance <= 0x7fff_ffff && direction < 4 ==> abs_int(r.0 as int) + abs_int(r.1 as int) == distance,
{
    let dist = distance as i32;
    match direction {
        JUMP_DIR_N => (0, -dist),
        JUMP_DIR_E => (dist, 0),
        JUMP_DIR_S => (0, dist),
        JUMP_DIR_W => (-dist, 0),
        _ => (0, 0),
    }
}

pub open spec fn abs_int(x: int) -> int {
    if x < 0 { -x } else { x }
}

/// Offset `(dx, dy)` of the 8-direction encoding 0=N, 1=NE, ..., 7=NW
/// (y grows southwards); other values give `(0, 0)`.
pub open spec fn dir_offset_spec(dir: u32) -> (int, int) {
    if dir == 0 { (0, -1) }
    else if dir == 1 { (1, -1) }
    else if dir == 2 { (1, 0) }
    else if dir == 3 { (1, 1) }
    else if dir == 4 { (0, 1) }
    else if dir == 5 { (-1, 1) }
    else if dir == 6 { (-1, 0) }
    else if dir == 7 { (-1, -1) }
    else { (0, 0) }
}

pub fn dir_to_offset(dir: u32) -> (r: (i32, i32))
    ensures
        (r.0 as int, r.1 as int) == dir_offset_spec(dir),
{
    match dir {
        0 => (0, -1),
        1 => (1, -1),
        2 => (1, 0),
        3 => (1, 1),
        4 => (0, 1),
        5 => (-1, 1),
        6 => (-1, 0),
        7 => (-1, -1),
        _ => (0, 0),
    }
}

/// The eight directions are pairwise distinct unit steps, and direction
/// `d` and `(d + 4) % 8` are opposite.
pub proof fn lemma_dir_offsets(d: u32)
    requires
        d < 8,
    ensures
        dir_offset_spec(d) != (0int, 0int),
        -1 <= dir_offset_spec(d).0 <= 1,
        -1 <= dir_offset_spec(d).1 <= 1,
        dir_offset_spec(((d + 4) % 8) as u32).0 == -dir_offset_spec(d).0,
        dir_offset_spec(((d + 4) % 8) as u32).1 == -dir_offset_spec(d).1,
        forall|e: u32| e < 8 && e != d ==> dir_offset_spec(e) != dir_offset_spec(d),
{
}

pub open spec fn dir_name_spec(dir: u32) -> Seq<char> {
    if dir == 0 { "N"@ }
    else if dir == 1 { "NE"@ }
    else if dir == 2 { "E"@ }
    else if dir == 3 { "SE"@ }
    else if dir == 4 { "S"@ }
    else if dir == 5 { "SW"@ }
    else if dir == 6 { "W"@ }
    else if dir == 7 { "NW"@ }
    else { "?"@ }
}

pub fn dir_name(dir: u32) -> (r: &'static str)
    ensures
        r@ == dir_name_spec(dir),
{
    match dir {
        0 => "N",
        1 => "NE",
        2 => "E",
        3 => "SE",
        4 => "S",
        5 => "SW",
        6 => "W",
        7 => "NW",
        _ => "?",
    }
}

} // verus!
